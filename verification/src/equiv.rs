//! The optimizer preserves behaviour: running an optimized tree finishes
//! exactly when the tree does, leaves the same tape contents, cursor and
//! output, and stops at the same point of the input. Stated and proved
//! here for trees of `Add`, `Mov` and `Loop` (the trees the parser can
//! produce without I/O, which is what the tape-contents law speaks of).

use vstd::prelude::*;

use vstd::arithmetic::div_mod::{
    lemma_add_mod_noop, lemma_mod_twice, lemma_mul_mod_noop_left, lemma_small_mod,
};

use crate::optimizer::{
    affine_scan, d_of, drop0, fusable, fuse, loop_form, norm_op, opt_s, sorted_insert_add,
};
use crate::semantics::{
    apply_targets, cell, lemma_run_fuel, lemma_run_mono, lemma_step_fuel, lemma_step_mono, orbit,
    run_fuel, run_halts, run_res, run_s, scaled, step_fuel, step_halts, step_res, step_s,
    steps_to_zero, transfer_iters, transfer_mach, tread, Mach,
};
use crate::structs::SOp;

verus! {

/// Two machines that cannot be told apart: same cursor, same remaining
/// input, same output, and every tape cell reads the same (the maps may
/// differ in which zero cells they hold explicitly).
pub open spec fn mach_equiv(a: Mach, b: Mach) -> bool {
    &&& a.cur == b.cur
    &&& a.inp == b.inp
    &&& a.out == b.out
    &&& forall|i: isize| #[trigger] tread(a.tape, i) == tread(b.tape, i)
}

/// A tree of `Add`, `Mov` and `Loop` alone.
pub open spec fn pure_op(op: SOp) -> bool
    decreases op,
{
    match op {
        SOp::Add(_) => true,
        SOp::Mov(_) => true,
        SOp::Loop(body) => pure_ops(body),
        _ => false,
    }
}

/// A sequence of such trees.
pub open spec fn pure_ops(ops: Seq<SOp>) -> bool
    decreases ops,
{
    ops.len() == 0 || (pure_ops(ops.drop_last()) && pure_op(ops.last()))
}

/// Inserting the same value at the same address keeps machines
/// indistinguishable.
proof fn lemma_equiv_insert(a: Map<isize, u8>, b: Map<isize, u8>, k: isize, v: u8)
    requires
        forall|i: isize| #[trigger] tread(a, i) == tread(b, i),
    ensures
        forall|i: isize| #[trigger] tread(a.insert(k, v), i) == tread(b.insert(k, v), i),
{
    assert forall|i: isize| #[trigger] tread(a.insert(k, v), i) == tread(b.insert(k, v), i) by {
        if i != k {
            assert(tread(a, i) == tread(b, i));
        }
    }
}

/// Applying the same targets to indistinguishable tapes yields
/// indistinguishable tapes.
proof fn lemma_apply_targets_equiv(
    a: Map<isize, u8>,
    b: Map<isize, u8>,
    cur: isize,
    targets: Seq<(isize, u8)>,
    n: nat,
)
    requires
        forall|i: isize| #[trigger] tread(a, i) == tread(b, i),
    ensures
        forall|i: isize| #[trigger] tread(apply_targets(a, cur, targets, n), i) == tread(
            apply_targets(b, cur, targets, n),
            i,
        ),
    decreases targets.len(),
{
    if targets.len() > 0 {
        lemma_apply_targets_equiv(a, b, cur, targets.drop_last(), n);
        let ta = apply_targets(a, cur, targets.drop_last(), n);
        let tb = apply_targets(b, cur, targets.drop_last(), n);
        let at = cur.wrapping_add(targets.last().0);
        assert(tread(ta, at) == tread(tb, at));
        lemma_equiv_insert(
            ta,
            tb,
            at,
            tread(ta, at).wrapping_add(scaled(targets.last().1, n)),
        );
    }
}

/// The evaluator cannot tell indistinguishable machines apart: one step
/// from either finishes alike, with indistinguishable outcomes.
proof fn lemma_step_equiv(m1: Mach, m2: Mach, op: SOp, f: nat)
    requires
        mach_equiv(m1, m2),
        step_s(m1, op, f) is Some,
    ensures
        step_s(m2, op, f) is Some,
        step_s(m2, op, f).unwrap().1 == step_s(m1, op, f).unwrap().1,
        mach_equiv(step_s(m1, op, f).unwrap().0, step_s(m2, op, f).unwrap().0),
    decreases f, op, 0int,
{
    assert(cell(m1) == cell(m2));
    match op {
        SOp::Add(i) => {
            lemma_equiv_insert(m1.tape, m2.tape, m1.cur, cell(m1).wrapping_add(i));
        },
        SOp::Mov(_) => {},
        SOp::In => {
            if m1.inp.len() != 0 {
                lemma_equiv_insert(m1.tape, m2.tape, m1.cur, m1.inp[0]);
            }
        },
        SOp::Out => {},
        SOp::Loop(body) => {
            if cell(m1) != 0 {
                lemma_run_equiv(m1, m2, body, f);
                match run_s(m1, body, f) {
                    Some((m1b, true)) => {
                        let m2b = run_s(m2, body, f).unwrap().0;
                        lemma_step_equiv(m1b, m2b, op, (f - 1) as nat);
                    },
                    _ => {},
                }
            }
        },
        SOp::Transfer(d, targets) => {
            if cell(m1) != 0 {
                match transfer_iters(cell(m1), d) {
                    Some(n) => {
                        lemma_equiv_insert(m1.tape, m2.tape, m1.cur, 0);
                        lemma_apply_targets_equiv(
                            m1.tape.insert(m1.cur, 0),
                            m2.tape.insert(m2.cur, 0),
                            m1.cur,
                            targets,
                            n,
                        );
                    },
                    None => {},
                }
            }
        },
    }
}

/// The evaluator cannot tell indistinguishable machines apart: a run from
/// either finishes alike, with indistinguishable outcomes.
proof fn lemma_run_equiv(m1: Mach, m2: Mach, ops: Seq<SOp>, f: nat)
    requires
        mach_equiv(m1, m2),
        run_s(m1, ops, f) is Some,
    ensures
        run_s(m2, ops, f) is Some,
        run_s(m2, ops, f).unwrap().1 == run_s(m1, ops, f).unwrap().1,
        mach_equiv(run_s(m1, ops, f).unwrap().0, run_s(m2, ops, f).unwrap().0),
    decreases f, ops, 1int,
{
    if ops.len() != 0 {
        lemma_step_equiv(m1, m2, ops[0], f);
        match step_s(m1, ops[0], f) {
            Some((m1b, true)) => {
                let m2b = step_s(m2, ops[0], f).unwrap().0;
                lemma_run_equiv(m1b, m2b, ops.drop_first(), f);
            },
            _ => {},
        }
    }
}

/// Running a concatenation is running the first part, then — unless it was
/// stopped — the second from where the first left off.
proof fn lemma_run_append(m: Mach, a: Seq<SOp>, b: Seq<SOp>, f: nat)
    ensures
        run_s(m, a + b, f) == (match run_s(m, a, f) {
            None => None::<(Mach, bool)>,
            Some((m2, false)) => Some((m2, false)),
            Some((m2, true)) => run_s(m2, b, f),
        }),
    decreases a.len(),
{
    if a.len() == 0 {
        assert(a + b =~= b);
    } else {
        assert((a + b)[0] == a[0]);
        assert((a + b).len() > 0);
        match step_s(m, a[0], f) {
            Some((m2, true)) => {
                assert((a + b).drop_first() =~= a.drop_first() + b);
                lemma_run_append(m2, a.drop_first(), b, f);
            },
            _ => {},
        }
    }
}

/// One instruction that never reads input, anywhere.
pub open spec fn no_input_op(op: SOp) -> bool
    decreases op,
{
    match op {
        SOp::In => false,
        SOp::Loop(body) => no_input(body),
        _ => true,
    }
}

/// A tree that never reads input.
pub open spec fn no_input(ops: Seq<SOp>) -> bool
    decreases ops,
{
    ops.len() == 0 || (no_input(ops.drop_last()) && no_input_op(ops.last()))
}

/// A pure tree reads no input.
proof fn lemma_pure_no_input(ops: Seq<SOp>)
    requires
        pure_ops(ops),
    ensures
        no_input(ops),
    decreases ops,
{
    if ops.len() > 0 {
        lemma_pure_no_input(ops.drop_last());
        assert(pure_op(ops.last()));
        assert(decreases_to!(ops => ops[ops.len() - 1]));
        match ops.last() {
            SOp::Loop(body) => {
                lemma_pure_no_input(body);
                assert(no_input_op(ops.last()));
            },
            _ => {
                assert(no_input_op(ops.last()));
            },
        }
    }
}

/// A run that reads no input is never stopped.
proof fn lemma_no_stop(m: Mach, ops: Seq<SOp>, f: nat)
    requires
        no_input(ops),
        run_s(m, ops, f) is Some,
    ensures
        run_s(m, ops, f).unwrap().1 == true,
    decreases f, ops, 1int,
{
    if ops.len() != 0 {
        lemma_no_input_index(ops, 0);
        lemma_step_no_stop(m, ops[0], f);
        match step_s(m, ops[0], f) {
            Some((m2, true)) => {
                lemma_no_input_drop_first(ops);
                lemma_no_stop(m2, ops.drop_first(), f);
            },
            _ => {},
        }
    }
}

/// A step that reads no input is never stopped.
proof fn lemma_step_no_stop(m: Mach, op: SOp, f: nat)
    requires
        no_input_op(op),
        step_s(m, op, f) is Some,
    ensures
        step_s(m, op, f).unwrap().1 == true,
    decreases f, op, 0int,
{
    match op {
        SOp::Loop(body) => {
            if cell(m) != 0 {
                lemma_no_stop(m, body, f);
                match run_s(m, body, f) {
                    Some((m2, true)) => {
                        lemma_step_no_stop(m2, op, (f - 1) as nat);
                    },
                    _ => {},
                }
            }
        },
        _ => {},
    }
}

/// What [`no_input`] says of each element.
proof fn lemma_no_input_index(ops: Seq<SOp>, i: int)
    requires
        no_input(ops),
        0 <= i < ops.len(),
    ensures
        no_input_op(ops[i]),
    decreases ops.len(),
{
    if i < ops.len() - 1 {
        lemma_no_input_index(ops.drop_last(), i);
    }
}

/// Reading no input passes to the tail.
proof fn lemma_no_input_drop_first(ops: Seq<SOp>)
    requires
        no_input(ops),
        ops.len() > 0,
    ensures
        no_input(ops.drop_first()),
    decreases ops.len(),
{
    if ops.len() > 1 {
        lemma_no_input_drop_first(ops.drop_last());
        assert(ops.drop_first().drop_last() =~= ops.drop_last().drop_first());
        assert(ops.drop_first().last() == ops.last());
    } else {
        assert(ops.drop_first().len() == 0);
    }
}

/// Wrapping byte addition associates.
proof fn lemma_wadd8_assoc(x: u8, y: u8, z: u8)
    ensures
        x.wrapping_add(y).wrapping_add(z) == x.wrapping_add(y.wrapping_add(z)),
{
}

/// Wrapping cursor addition associates.
proof fn lemma_wadd_isize_assoc(x: isize, y: isize, z: isize)
    ensures
        x.wrapping_add(y).wrapping_add(z) == x.wrapping_add(y.wrapping_add(z)),
{
}

/// Wrapping cursor addition is injective in its second argument: distinct
/// offsets land on distinct addresses.
proof fn lemma_wadd_inj(b: isize, q1: isize, q2: isize)
    requires
        q1 != q2,
    ensures
        b.wrapping_add(q1) != b.wrapping_add(q2),
{
}

/// The loop counter's orbit in closed form: `k` passes add `k·d`.
proof fn lemma_orbit_closed(v: u8, d: u8, k: nat)
    ensures
        orbit(v, d, k) == ((v + k * d) % 256) as u8,
    decreases k,
{
    if k == 0 {
        lemma_small_mod(v as nat, 256);
    } else {
        lemma_orbit_closed(v, d, (k - 1) as nat);
        lemma_small_mod(d as nat, 256);
        lemma_mod_twice(v + (k - 1) * d, 256);
        lemma_add_mod_noop(v + (k - 1) * d, d as int, 256);
        assert((k - 1) * d + d == k * d) by (nonlinear_arith);
        assert(orbit(v, d, k) == orbit(v, d, (k - 1) as nat).wrapping_add(d));
        assert(orbit(v, d, (k - 1) as nat) == ((v + (k - 1) * d) % 256) as u8);
        assert((((v + (k - 1) * d) % 256) + d) % 256 == (v + (k - 1) * d + d) % 256) by {
            assert((((v + (k - 1) * d) % 256) % 256 + (d as int) % 256) % 256 == ((v + (k - 1) * d)
                + d) % 256);
        }
    }
}

/// The orbit repeats with period 256.
proof fn lemma_orbit_mod(v: u8, d: u8, k: nat)
    ensures
        orbit(v, d, k) == orbit(v, d, k % 256),
{
    lemma_orbit_closed(v, d, k);
    lemma_orbit_closed(v, d, k % 256);
    lemma_mul_mod_noop_left(k as int, d as int, 256);
    lemma_small_mod(v as nat, 256);
    lemma_add_mod_noop(v as int, k * d, 256);
    lemma_add_mod_noop(v as int, (k % 256) * d, 256);
    assert((v + k * d) % 256 == (v + (k % 256) * d) % 256) by {
        assert((k * d) % 256 == ((k % 256) * d) % 256);
        assert(((v as int) % 256 + (k * d) % 256) % 256 == (v + k * d) % 256);
        assert(((v as int) % 256 + ((k % 256) * d) % 256) % 256 == (v + (k % 256) * d) % 256);
    }
}

/// An orbit that reaches zero within the bound gives the iteration count.
proof fn lemma_orbit_to_steps(v: u8, d: u8, j: nat, b: nat)
    requires
        orbit(v, d, j) == 0,
        j <= b,
    ensures
        steps_to_zero(v, d, b) is Some,
    decreases j,
{
    if v != 0 {
        crate::semantics::lemma_orbit_shift(v, d, (j - 1) as nat);
        lemma_orbit_to_steps(v.wrapping_add(d), d, (j - 1) as nat, (b - 1) as nat);
    }
}

/// Raising the bound does not change a count already found.
proof fn lemma_steps_bound_up(v: u8, d: u8, b1: nat, b2: nat)
    requires
        steps_to_zero(v, d, b1) is Some,
        b1 <= b2,
    ensures
        steps_to_zero(v, d, b2) == steps_to_zero(v, d, b1),
    decreases b1,
{
    if v != 0 {
        lemma_steps_bound_up(v.wrapping_add(d), d, (b1 - 1) as nat, (b2 - 1) as nat);
    }
}

/// When the transfer's count is undefined, the counter never reaches zero.
proof fn lemma_steps_none_orbit(v: u8, d: u8, k: nat)
    requires
        transfer_iters(v, d) is None,
    ensures
        orbit(v, d, k) != 0,
{
    if orbit(v, d, k) == 0 {
        lemma_orbit_mod(v, d, k);
        lemma_orbit_to_steps(v, d, k % 256, 256);
    }
}

/// An effect list with strictly ascending offsets.
pub open spec fn sorted_effs(s: Seq<(isize, u8)>) -> bool {
    forall|i: int, j: int| 0 <= i < j < s.len() ==> (#[trigger] s[i]).0 < (#[trigger] s[j]).0
}

/// The list records an effect at this offset.
pub open spec fn has_off(s: Seq<(isize, u8)>, q: isize) -> bool {
    exists|i: int| 0 <= i < s.len() && (#[trigger] s[i]).0 == q
}

/// The net effect the list records at this offset; zero where it records
/// none.
pub open spec fn off_val(s: Seq<(isize, u8)>, q: isize) -> u8 {
    if has_off(s, q) {
        s[choose|i: int| 0 <= i < s.len() && (#[trigger] s[i]).0 == q].1
    } else {
        0
    }
}

/// In a sorted list, the entry at an offset is the one found.
proof fn lemma_off_val_is(s: Seq<(isize, u8)>, q: isize, i: int)
    requires
        sorted_effs(s),
        0 <= i < s.len(),
        s[i].0 == q,
    ensures
        has_off(s, q),
        off_val(s, q) == s[i].1,
{
    assert(has_off(s, q));
    let j = choose|j: int| 0 <= j < s.len() && (#[trigger] s[j]).0 == q;
    if i < j {
        assert(s[i].0 < s[j].0);
    } else if j < i {
        assert(s[j].0 < s[i].0);
    }
}

/// Recording an effect keeps the list sorted, touches only its offset, and
/// adds its amount there.
#[verifier::rlimit(100)]
#[verifier::spinoff_prover]
proof fn lemma_insert_props(s: Seq<(isize, u8)>, off: isize, x: u8)
    requires
        sorted_effs(s),
    ensures
        sorted_effs(sorted_insert_add(s, off, x)),
        forall|q: isize|
            #[trigger] has_off(sorted_insert_add(s, off, x), q) <==> (q == off || has_off(s, q)),
        off_val(sorted_insert_add(s, off, x), off) == off_val(s, off).wrapping_add(x),
        forall|q: isize|
            q != off ==> #[trigger] off_val(sorted_insert_add(s, off, x), q) == off_val(s, q),
    decreases s.len(),
{
    let r = sorted_insert_add(s, off, x);
    if s.len() == 0 {
        assert(r =~= seq![(off, x)]);
        assert(r[0].0 == off);
        lemma_off_val_is(r, off, 0);
        assert(!has_off(s, off));
        assert(0u8.wrapping_add(x) == x);
        assert forall|q: isize| #[trigger] has_off(r, q) <==> (q == off || has_off(s, q)) by {
            if has_off(r, q) {
                let i = choose|i: int| 0 <= i < r.len() && (#[trigger] r[i]).0 == q;
                assert(i == 0);
            }
            if q == off {
                assert(r[0].0 == q);
            }
        }
        assert forall|q: isize| q != off implies #[trigger] off_val(r, q) == off_val(s, q) by {
            assert(!has_off(r, q));
            assert(!has_off(s, q));
        }
    } else if s[0].0 == off {
        assert(r == seq![(off, s[0].1.wrapping_add(x))] + s.drop_first());
        assert(r.len() == s.len());
        assert(r[0] == (off, s[0].1.wrapping_add(x)));
        assert(forall|i: int| 1 <= i < r.len() ==> #[trigger] r[i] == s[i]);
        assert(sorted_effs(r)) by {
            assert forall|i: int, j: int|
                0 <= i < j < r.len() implies (#[trigger] r[i]).0 < (#[trigger] r[j]).0 by {
                assert(s[i].0 < s[j].0);
            }
        }
        lemma_off_val_is(s, off, 0);
        lemma_off_val_is(r, off, 0);
        assert forall|q: isize| #[trigger] has_off(r, q) <==> (q == off || has_off(s, q)) by {
            if has_off(r, q) {
                let i = choose|i: int| 0 <= i < r.len() && (#[trigger] r[i]).0 == q;
                if i > 0 {
                    assert(s[i].0 == q);
                }
            }
            if q == off {
                assert(r[0].0 == q);
            } else if has_off(s, q) {
                let i = choose|i: int| 0 <= i < s.len() && (#[trigger] s[i]).0 == q;
                assert(i != 0);
                assert(r[i].0 == q);
            }
        }
        assert forall|q: isize| q != off implies #[trigger] off_val(r, q) == off_val(s, q) by {
            if has_off(s, q) {
                let i = choose|i: int| 0 <= i < s.len() && (#[trigger] s[i]).0 == q;
                assert(i != 0);
                lemma_off_val_is(s, q, i);
                lemma_off_val_is(r, q, i);
            }
        }
    } else if off < s[0].0 {
        assert(r == seq![(off, x)] + s);
        assert(r[0] == (off, x));
        assert(forall|i: int| 1 <= i < r.len() ==> #[trigger] r[i] == s[i - 1]);
        assert(sorted_effs(r)) by {
            assert forall|i: int, j: int|
                0 <= i < j < r.len() implies (#[trigger] r[i]).0 < (#[trigger] r[j]).0 by {
                if i > 0 {
                    assert(s[i - 1].0 < s[j - 1].0);
                } else if j > 1 {
                    assert(s[0].0 < s[j - 1].0);
                }
            }
        }
        lemma_off_val_is(r, off, 0);
        assert(!has_off(s, off)) by {
            if has_off(s, off) {
                let i = choose|i: int| 0 <= i < s.len() && (#[trigger] s[i]).0 == off;
                if i > 0 {
                    assert(s[0].0 < s[i].0);
                }
            }
        }
        assert(0u8.wrapping_add(x) == x);
        assert forall|q: isize| #[trigger] has_off(r, q) <==> (q == off || has_off(s, q)) by {
            if has_off(r, q) {
                let i = choose|i: int| 0 <= i < r.len() && (#[trigger] r[i]).0 == q;
                if i > 0 {
                    assert(s[i - 1].0 == q);
                }
            }
            if q == off {
                assert(r[0].0 == q);
            } else if has_off(s, q) {
                let i = choose|i: int| 0 <= i < s.len() && (#[trigger] s[i]).0 == q;
                assert(r[i + 1].0 == q);
            }
        }
        assert forall|q: isize| q != off implies #[trigger] off_val(r, q) == off_val(s, q) by {
            if has_off(s, q) {
                let i = choose|i: int| 0 <= i < s.len() && (#[trigger] s[i]).0 == q;
                lemma_off_val_is(s, q, i);
                lemma_off_val_is(r, q, i + 1);
            } else {
                assert(!has_off(r, q));
            }
        }
    } else {
        // off > s[0].0: keep the head, record in the tail
        let tail = s.drop_first();
        assert(sorted_effs(tail)) by {
            assert(forall|i: int| 0 <= i < tail.len() ==> #[trigger] tail[i] == s[i + 1]);
        }
        lemma_insert_props(tail, off, x);
        let rt = sorted_insert_add(tail, off, x);
        assert(r == seq![s[0]] + rt);
        assert(r[0] == s[0]);
        assert(forall|i: int| 1 <= i < r.len() ==> #[trigger] r[i] == rt[i - 1]);
        assert(forall|i: int| 0 <= i < tail.len() ==> #[trigger] tail[i] == s[i + 1]);
        assert(sorted_effs(r)) by {
            assert forall|i: int, j: int|
                0 <= i < j < r.len() implies (#[trigger] r[i]).0 < (#[trigger] r[j]).0 by {
                if i > 0 {
                    assert(rt[i - 1].0 < rt[j - 1].0);
                } else {
                    // every key in the tail's result is a tail key or `off`,
                    // all greater than the head's
                    assert(has_off(rt, rt[j - 1].0)) by {
                        assert(rt[j - 1].0 == rt[j - 1].0);
                    }
                    if rt[j - 1].0 != off {
                        assert(has_off(tail, rt[j - 1].0));
                        let t = choose|t: int|
                            0 <= t < tail.len() && (#[trigger] tail[t]).0 == rt[j - 1].0;
                        assert(s[t + 1].0 == rt[j - 1].0);
                        assert(s[0].0 < s[t + 1].0);
                    }
                }
            }
        }
        assert forall|q: isize| #[trigger] has_off(r, q) <==> (q == off || has_off(s, q)) by {
            if has_off(r, q) {
                let i = choose|i: int| 0 <= i < r.len() && (#[trigger] r[i]).0 == q;
                if i == 0 {
                    assert(s[0].0 == q);
                } else {
                    assert(rt[i - 1].0 == q);
                    assert(has_off(rt, q));
                    if q != off {
                        assert(has_off(tail, q));
                        let t = choose|t: int|
                            0 <= t < tail.len() && (#[trigger] tail[t]).0 == q;
                        assert(s[t + 1].0 == q);
                    }
                }
            }
            if q == off || has_off(s, q) {
                if q == s[0].0 {
                    assert(r[0].0 == q);
                } else if q == off {
                    assert(has_off(rt, q));
                    let t = choose|t: int| 0 <= t < rt.len() && (#[trigger] rt[t]).0 == q;
                    assert(r[t + 1].0 == q);
                } else {
                    let i = choose|i: int| 0 <= i < s.len() && (#[trigger] s[i]).0 == q;
                    assert(i != 0);
                    assert(tail[i - 1].0 == q);
                    assert(has_off(tail, q));
                    assert(has_off(rt, q));
                    let t = choose|t: int| 0 <= t < rt.len() && (#[trigger] rt[t]).0 == q;
                    assert(r[t + 1].0 == q);
                }
            }
        }
        assert(off_val(r, off) == off_val(s, off).wrapping_add(x)) by {
            assert(has_off(rt, off));
            let t = choose|t: int| 0 <= t < rt.len() && (#[trigger] rt[t]).0 == off;
            lemma_off_val_is(rt, off, t);
            lemma_off_val_is(r, off, t + 1);
            assert(off_val(s, off) == off_val(tail, off)) by {
                if has_off(tail, off) {
                    let u = choose|u: int| 0 <= u < tail.len() && (#[trigger] tail[u]).0 == off;
                    lemma_off_val_is(tail, off, u);
                    lemma_off_val_is(s, off, u + 1);
                } else {
                    assert(!has_off(s, off)) by {
                        if has_off(s, off) {
                            let u = choose|u: int|
                                0 <= u < s.len() && (#[trigger] s[u]).0 == off;
                            assert(u != 0);
                            assert(tail[u - 1].0 == off);
                        }
                    }
                }
            }
        }
        assert forall|q: isize| q != off implies #[trigger] off_val(r, q) == off_val(s, q) by {
            if q == s[0].0 {
                lemma_off_val_is(r, q, 0);
                lemma_off_val_is(s, q, 0);
            } else if has_off(s, q) {
                let i = choose|i: int| 0 <= i < s.len() && (#[trigger] s[i]).0 == q;
                assert(i != 0);
                assert(tail[i - 1].0 == q);
                lemma_off_val_is(s, q, i);
                lemma_off_val_is(tail, q, i - 1);
                assert(has_off(rt, q));
                let t = choose|t: int| 0 <= t < rt.len() && (#[trigger] rt[t]).0 == q;
                lemma_off_val_is(rt, q, t);
                lemma_off_val_is(r, q, t + 1);
            } else {
                assert(!has_off(r, q)) by {
                    if has_off(r, q) {
                        let i = choose|i: int| 0 <= i < r.len() && (#[trigger] r[i]).0 == q;
                        if i > 0 {
                            assert(rt[i - 1].0 == q);
                            assert(has_off(rt, q));
                            assert(has_off(tail, q));
                            let t = choose|t: int|
                                0 <= t < tail.len() && (#[trigger] tail[t]).0 == q;
                            assert(s[t + 1].0 == q);
                        }
                    }
                }
            }
        }
    }
}

/// The abstract walk keeps its effect list sorted.
proof fn lemma_scan_sorted(body: Seq<SOp>, rel: isize, acc: Seq<(isize, u8)>)
    requires
        sorted_effs(acc),
        affine_scan(body, rel, acc) is Some,
    ensures
        sorted_effs(affine_scan(body, rel, acc).unwrap().1),
    decreases body.len(),
{
    if body.len() > 0 {
        match body[0] {
            SOp::Add(x) => {
                lemma_insert_props(acc, rel, x);
                lemma_scan_sorted(body.drop_first(), rel, sorted_insert_add(acc, rel, x));
            },
            SOp::Mov(x) => {
                lemma_scan_sorted(body.drop_first(), rel.wrapping_add(x), acc);
            },
            _ => {},
        }
    }
}

/// The recorded counter delta is the effect at offset zero.
proof fn lemma_d_of_val(s: Seq<(isize, u8)>)
    requires
        sorted_effs(s),
    ensures
        d_of(s) == off_val(s, 0),
    decreases s.len(),
{
    if s.len() == 0 {
        assert(!has_off(s, 0));
    } else if s.last().0 == 0 {
        lemma_off_val_is(s, 0, s.len() - 1);
    } else {
        let dl = s.drop_last();
        assert(sorted_effs(dl)) by {
            assert(forall|i: int| 0 <= i < dl.len() ==> #[trigger] dl[i] == s[i]);
        }
        lemma_d_of_val(dl);
        if has_off(dl, 0) {
            let i = choose|i: int| 0 <= i < dl.len() && (#[trigger] dl[i]).0 == 0;
            lemma_off_val_is(dl, 0isize, i);
            lemma_off_val_is(s, 0isize, i);
        } else {
            assert(!has_off(s, 0)) by {
                if has_off(s, 0) {
                    let i = choose|i: int| 0 <= i < s.len() && (#[trigger] s[i]).0 == 0;
                    assert(i != s.len() - 1);
                    assert(dl[i].0 == 0);
                }
            }
        }
    }
}

/// Dropping the counter's entry keeps every other effect, in order.
#[verifier::rlimit(100)]
#[verifier::spinoff_prover]
proof fn lemma_drop0_props(s: Seq<(isize, u8)>)
    requires
        sorted_effs(s),
    ensures
        sorted_effs(drop0(s)),
        !has_off(drop0(s), 0),
        forall|i: int|
            0 <= i < drop0(s).len() ==> has_off(s, (#[trigger] drop0(s)[i]).0) && drop0(s)[i].0
                != 0,
        forall|q: isize|
            q != 0 ==> (#[trigger] has_off(drop0(s), q) <==> has_off(s, q)),
        forall|q: isize|
            q != 0 && has_off(s, q) ==> #[trigger] off_val(drop0(s), q) == off_val(s, q),
    decreases s.len(),
{
    let r = drop0(s);
    if s.len() == 0 {
        assert forall|q: isize| q != 0 implies (#[trigger] has_off(r, q) <==> has_off(s, q)) by {}
    } else {
        let dl = s.drop_last();
        assert(sorted_effs(dl)) by {
            assert(forall|i: int| 0 <= i < dl.len() ==> #[trigger] dl[i] == s[i]);
        }
        lemma_drop0_props(dl);
        let rd = drop0(dl);
        assert forall|q: isize|
            q != 0 && has_off(dl, q) implies #[trigger] has_off(s, q) && off_val(s, q) == off_val(
            dl,
            q,
        ) by {
            let i = choose|i: int| 0 <= i < dl.len() && (#[trigger] dl[i]).0 == q;
            lemma_off_val_is(dl, q, i);
            lemma_off_val_is(s, q, i);
        }
        if s.last().0 == 0 {
            assert(r == rd);
            assert forall|q: isize| q != 0 implies (#[trigger] has_off(r, q) <==> has_off(
                s,
                q,
            )) by {
                if has_off(s, q) {
                    let i = choose|i: int| 0 <= i < s.len() && (#[trigger] s[i]).0 == q;
                    assert(i != s.len() - 1);
                    assert(dl[i].0 == q);
                }
            }
            assert forall|q: isize| q != 0 && has_off(s, q) implies #[trigger] off_val(r, q)
                == off_val(s, q) by {
                let i = choose|i: int| 0 <= i < s.len() && (#[trigger] s[i]).0 == q;
                assert(i != s.len() - 1);
                assert(dl[i].0 == q);
                lemma_off_val_is(dl, q, i);
                lemma_off_val_is(s, q, i);
            }
        } else {
            assert(r == rd.push(s.last()));
            assert(forall|i: int| 0 <= i < rd.len() ==> #[trigger] r[i] == rd[i]);
            assert(r.last() == s.last());
            assert(sorted_effs(r)) by {
                assert forall|i: int, j: int|
                    0 <= i < j < r.len() implies (#[trigger] r[i]).0 < (#[trigger] r[j]).0 by {
                    if j < r.len() - 1 {
                        assert(rd[i].0 < rd[j].0);
                    } else {
                        // every key in the front comes from the front of `s`,
                        // all below the last key
                        assert(has_off(dl, rd[i].0));
                        let t = choose|t: int|
                            0 <= t < dl.len() && (#[trigger] dl[t]).0 == rd[i].0;
                        assert(s[t].0 == rd[i].0);
                        assert(s[t].0 < s[s.len() - 1].0);
                    }
                }
            }
            assert(!has_off(r, 0)) by {
                if has_off(r, 0) {
                    let i = choose|i: int| 0 <= i < r.len() && (#[trigger] r[i]).0 == 0;
                    if i < r.len() - 1 {
                        assert(rd[i].0 == 0);
                    }
                }
            }
            assert forall|q: isize| q != 0 implies (#[trigger] has_off(r, q) <==> has_off(
                s,
                q,
            )) by {
                if has_off(r, q) {
                    let i = choose|i: int| 0 <= i < r.len() && (#[trigger] r[i]).0 == q;
                    if i < r.len() - 1 {
                        assert(rd[i].0 == q);
                        assert(has_off(rd, q));
                    } else {
                        assert(s[s.len() - 1].0 == q);
                    }
                }
                if has_off(s, q) {
                    let i = choose|i: int| 0 <= i < s.len() && (#[trigger] s[i]).0 == q;
                    if i == s.len() - 1 {
                        assert(r[r.len() - 1].0 == q);
                    } else {
                        assert(dl[i].0 == q);
                        assert(has_off(rd, q));
                        let t = choose|t: int| 0 <= t < rd.len() && (#[trigger] rd[t]).0 == q;
                        assert(r[t].0 == q);
                    }
                }
            }
            assert forall|q: isize| q != 0 && has_off(s, q) implies #[trigger] off_val(r, q)
                == off_val(s, q) by {
                let i = choose|i: int| 0 <= i < s.len() && (#[trigger] s[i]).0 == q;
                lemma_off_val_is(s, q, i);
                if i == s.len() - 1 {
                    lemma_off_val_is(r, q, r.len() - 1);
                } else {
                    assert(dl[i].0 == q);
                    lemma_off_val_is(dl, q, i);
                    assert(has_off(rd, q));
                    let t = choose|t: int| 0 <= t < rd.len() && (#[trigger] rd[t]).0 == q;
                    lemma_off_val_is(rd, q, t);
                    lemma_off_val_is(r, q, t);
                }
            }
        }
    }
}

/// Every address lies at some offset from the cursor.
proof fn lemma_wadd_sub(cur: isize, i: isize)
    ensures
        cur.wrapping_add(i.wrapping_sub(cur)) == i,
{
}

/// Machine indistinguishability chains.
proof fn lemma_equiv_trans(a: Mach, b: Mach, c: Mach)
    requires
        mach_equiv(a, b),
        mach_equiv(b, c),
    ensures
        mach_equiv(a, c),
{
    assert forall|i: isize| #[trigger] tread(a.tape, i) == tread(c.tape, i) by {
        assert(tread(a.tape, i) == tread(b.tape, i));
        assert(tread(b.tape, i) == tread(c.tape, i));
    }
}

/// One more pass folds into the scaled total.
proof fn lemma_scaled_fold(e: u8, n: nat)
    requires
        n >= 1,
    ensures
        e.wrapping_add(scaled(e, (n - 1) as nat)) == scaled(e, n),
{
    lemma_small_mod(e as nat, 256);
    lemma_add_mod_noop(e as int, e * (n - 1), 256);
    assert(e + e * (n - 1) == e * n) by (nonlinear_arith);
}

/// One pass over a flat (only `Add` and `Mov`) body: it always completes,
/// within any fuel, moving the cursor by the walk's net displacement and
/// adding, at each offset from the base, the walk's recorded net effect.
#[verifier::rlimit(100)]
#[verifier::spinoff_prover]
proof fn lemma_flat_run(
    body: Seq<SOp>,
    rel: isize,
    acc: Seq<(isize, u8)>,
    m0: Mach,
    m: Mach,
    b: isize,
    f: nat,
)
    requires
        affine_scan(body, rel, acc) is Some,
        sorted_effs(acc),
        m.cur == b.wrapping_add(rel),
        m.inp == m0.inp,
        m.out == m0.out,
        forall|q: isize|
            #[trigger] tread(m.tape, b.wrapping_add(q)) == tread(
                m0.tape,
                b.wrapping_add(q),
            ).wrapping_add(off_val(acc, q)),
    ensures
        run_s(m, body, f) is Some,
        run_s(m, body, f).unwrap().1 == true,
        run_s(m, body, f).unwrap().0.cur == b.wrapping_add(
            affine_scan(body, rel, acc).unwrap().0,
        ),
        run_s(m, body, f).unwrap().0.inp == m0.inp,
        run_s(m, body, f).unwrap().0.out == m0.out,
        forall|q: isize|
            #[trigger] tread(run_s(m, body, f).unwrap().0.tape, b.wrapping_add(q)) == tread(
                m0.tape,
                b.wrapping_add(q),
            ).wrapping_add(off_val(affine_scan(body, rel, acc).unwrap().1, q)),
    decreases body.len(),
{
    if body.len() > 0 {
        match body[0] {
            SOp::Add(x) => {
                let acc1 = sorted_insert_add(acc, rel, x);
                lemma_insert_props(acc, rel, x);
                let m1 = step_s(m, body[0], f).unwrap().0;
                assert(m1.tape == m.tape.insert(m.cur, cell(m).wrapping_add(x)));
                assert forall|q: isize|
                    #[trigger] tread(m1.tape, b.wrapping_add(q)) == tread(
                        m0.tape,
                        b.wrapping_add(q),
                    ).wrapping_add(off_val(acc1, q)) by {
                    if q == rel {
                        assert(tread(m.tape, b.wrapping_add(rel)) == tread(
                            m0.tape,
                            b.wrapping_add(rel),
                        ).wrapping_add(off_val(acc, rel)));
                        lemma_wadd8_assoc(tread(m0.tape, b.wrapping_add(rel)), off_val(acc, rel), x);
                    } else {
                        lemma_wadd_inj(b, q, rel);
                        assert(tread(m.tape, b.wrapping_add(q)) == tread(
                            m0.tape,
                            b.wrapping_add(q),
                        ).wrapping_add(off_val(acc, q)));
                    }
                }
                lemma_flat_run(body.drop_first(), rel, acc1, m0, m1, b, f);
            },
            SOp::Mov(x) => {
                let m1 = step_s(m, body[0], f).unwrap().0;
                lemma_wadd_isize_assoc(b, rel, x);
                assert forall|q: isize|
                    #[trigger] tread(m1.tape, b.wrapping_add(q)) == tread(
                        m0.tape,
                        b.wrapping_add(q),
                    ).wrapping_add(off_val(acc, q)) by {
                    assert(tread(m.tape, b.wrapping_add(q)) == tread(
                        m0.tape,
                        b.wrapping_add(q),
                    ).wrapping_add(off_val(acc, q)));
                }
                lemma_flat_run(body.drop_first(), rel.wrapping_add(x), acc, m0, m1, b, f);
            },
            _ => {},
        }
    }
}

/// Applying a transfer's targets, offset by offset: a recorded offset gains
/// its scaled effect, the rest of the tape stays.
#[verifier::rlimit(100)]
#[verifier::spinoff_prover]
proof fn lemma_apply_tread(
    t: Map<isize, u8>,
    cur: isize,
    list: Seq<(isize, u8)>,
    n: nat,
    q: isize,
)
    requires
        sorted_effs(list),
    ensures
        tread(apply_targets(t, cur, list, n), cur.wrapping_add(q)) == (if has_off(list, q) {
            tread(t, cur.wrapping_add(q)).wrapping_add(scaled(off_val(list, q), n))
        } else {
            tread(t, cur.wrapping_add(q))
        }),
    decreases list.len(),
{
    if list.len() > 0 {
        let dl = list.drop_last();
        assert(sorted_effs(dl)) by {
            assert(forall|i: int| 0 <= i < dl.len() ==> #[trigger] dl[i] == list[i]);
        }
        lemma_apply_tread(t, cur, dl, n, q);
        let tdl = apply_targets(t, cur, dl, n);
        let lastk = list.last().0;
        if q == lastk {
            assert(!has_off(dl, q)) by {
                if has_off(dl, q) {
                    let i = choose|i: int| 0 <= i < dl.len() && (#[trigger] dl[i]).0 == q;
                    assert(list[i].0 < list[list.len() - 1].0);
                }
            }
            lemma_off_val_is(list, q, list.len() - 1);
        } else {
            lemma_wadd_inj(cur, q, lastk);
            if has_off(dl, q) {
                let i = choose|i: int| 0 <= i < dl.len() && (#[trigger] dl[i]).0 == q;
                lemma_off_val_is(dl, q, i);
                lemma_off_val_is(list, q, i);
            } else {
                assert(!has_off(list, q)) by {
                    if has_off(list, q) {
                        let i = choose|i: int|
                            0 <= i < list.len() && (#[trigger] list[i]).0 == q;
                        assert(i != list.len() - 1);
                        assert(dl[i].0 == q);
                    }
                }
            }
        }
    }
}

/// A pointer-neutral flat loop whose counter reaches zero in `n` passes
/// completes, leaving every offset bumped by its effect scaled by `n`.
/// Returns a fuel that witnesses the completed loop.
#[verifier::rlimit(100)]
#[verifier::spinoff_prover]
proof fn lemma_affine_loop_run(body: Seq<SOp>, acc: Seq<(isize, u8)>, m: Mach, n: nat) -> (f: nat)
    requires
        affine_scan(body, 0isize, Seq::empty()) == Some((0isize, acc)),
        sorted_effs(acc),
        steps_to_zero(cell(m), off_val(acc, 0), 256) == Some(n),
    ensures
        step_s(m, SOp::Loop(body), f) is Some,
        step_s(m, SOp::Loop(body), f).unwrap().1 == true,
        step_s(m, SOp::Loop(body), f).unwrap().0.cur == m.cur,
        step_s(m, SOp::Loop(body), f).unwrap().0.inp == m.inp,
        step_s(m, SOp::Loop(body), f).unwrap().0.out == m.out,
        forall|q: isize|
            #[trigger] tread(step_s(m, SOp::Loop(body), f).unwrap().0.tape, m.cur.wrapping_add(q))
                == tread(m.tape, m.cur.wrapping_add(q)).wrapping_add(
                scaled(off_val(acc, q), n),
            ),
    decreases n,
{
    let d = off_val(acc, 0);
    if cell(m) == 0 {
        assert(n == 0);
        assert(step_s(m, SOp::Loop(body), 0) == Some((m, true)));
        assert forall|q: isize|
            #[trigger] tread(m.tape, m.cur.wrapping_add(q)) == tread(
                m.tape,
                m.cur.wrapping_add(q),
            ).wrapping_add(scaled(off_val(acc, q), 0nat)) by {
            assert(off_val(acc, q) * 0 == 0);
            assert(scaled(off_val(acc, q), 0nat) == 0);
        }
        0
    } else {
        assert(n >= 1);
        // one pass
        assert(m.cur == m.cur.wrapping_add(0isize));
        assert forall|q: isize|
            #[trigger] tread(m.tape, m.cur.wrapping_add(q)) == tread(
                m.tape,
                m.cur.wrapping_add(q),
            ).wrapping_add(off_val(Seq::<(isize, u8)>::empty(), q)) by {
            assert(!has_off(Seq::<(isize, u8)>::empty(), q));
        }
        lemma_flat_run(body, 0isize, Seq::empty(), m, m, m.cur, 0);
        let m1 = run_s(m, body, 0).unwrap().0;
        assert(m1.cur == m.cur);
        // the counter cell advanced by the recorded delta
        assert(cell(m1) == cell(m).wrapping_add(d)) by {
            assert(tread(m1.tape, m.cur.wrapping_add(0isize)) == tread(
                m.tape,
                m.cur.wrapping_add(0isize),
            ).wrapping_add(off_val(acc, 0)));
        }
        lemma_steps_bound_up(cell(m1), d, 255, 256);
        let f2 = lemma_affine_loop_run(body, acc, m1, (n - 1) as nat);
        let mf = step_s(m1, SOp::Loop(body), f2).unwrap().0;
        lemma_run_mono(m, body, 0, f2 + 1);
        assert(run_s(m, body, f2 + 1) == Some((m1, true)));
        assert(step_s(m, SOp::Loop(body), f2 + 1) == step_s(m1, SOp::Loop(body), f2));
        assert forall|q: isize|
            #[trigger] tread(mf.tape, m.cur.wrapping_add(q)) == tread(
                m.tape,
                m.cur.wrapping_add(q),
            ).wrapping_add(scaled(off_val(acc, q), n)) by {
            let e = off_val(acc, q);
            assert(tread(mf.tape, m1.cur.wrapping_add(q)) == tread(
                m1.tape,
                m1.cur.wrapping_add(q),
            ).wrapping_add(scaled(e, (n - 1) as nat)));
            assert(tread(m1.tape, m.cur.wrapping_add(q)) == tread(
                m.tape,
                m.cur.wrapping_add(q),
            ).wrapping_add(e));
            lemma_wadd8_assoc(tread(m.tape, m.cur.wrapping_add(q)), e, scaled(e, (n - 1) as nat));
            lemma_scaled_fold(e, n);
        }
        f2 + 1
    }
}

/// A pointer-neutral flat loop whose counter never reaches zero never
/// completes, under any fuel: the faithful non-termination.
#[verifier::rlimit(100)]
#[verifier::spinoff_prover]
proof fn lemma_affine_loop_none(body: Seq<SOp>, acc: Seq<(isize, u8)>, m: Mach, f: nat)
    requires
        affine_scan(body, 0isize, Seq::empty()) == Some((0isize, acc)),
        sorted_effs(acc),
        cell(m) != 0,
        transfer_iters(cell(m), off_val(acc, 0)) is None,
    ensures
        step_s(m, SOp::Loop(body), f) is None,
    decreases f,
{
    let d = off_val(acc, 0);
    if f > 0 {
        assert(m.cur == m.cur.wrapping_add(0isize));
        assert forall|q: isize|
            #[trigger] tread(m.tape, m.cur.wrapping_add(q)) == tread(
                m.tape,
                m.cur.wrapping_add(q),
            ).wrapping_add(off_val(Seq::<(isize, u8)>::empty(), q)) by {
            assert(!has_off(Seq::<(isize, u8)>::empty(), q));
        }
        lemma_flat_run(body, 0isize, Seq::empty(), m, m, m.cur, f);
        let m1 = run_s(m, body, f).unwrap().0;
        assert(cell(m1) == cell(m).wrapping_add(d)) by {
            assert(tread(m1.tape, m.cur.wrapping_add(0isize)) == tread(
                m.tape,
                m.cur.wrapping_add(0isize),
            ).wrapping_add(off_val(acc, 0)));
        }
        assert(transfer_iters(cell(m1), d) is None) by {
            if transfer_iters(cell(m1), d) is Some {
                let k = transfer_iters(cell(m1), d).unwrap();
                crate::semantics::lemma_steps_orbit(cell(m1), d, 256);
                crate::semantics::lemma_orbit_shift(cell(m), d, k);
                lemma_steps_none_orbit(cell(m), d, k + 1);
            }
        }
        assert(cell(m1) != 0) by {
            lemma_steps_none_orbit(cell(m1), d, 0);
        }
        lemma_affine_loop_none(body, acc, m1, (f - 1) as nat);
    }
}

/// The affine rewrite is sound: where a loop has a closed form and the
/// loop completes, the `Transfer` completes with an indistinguishable
/// machine.
#[verifier::rlimit(100)]
#[verifier::spinoff_prover]
proof fn lemma_loop_to_transfer(body: Seq<SOp>, m: Mach, f: nat)
    requires
        loop_form(body) is Some,
        step_s(m, SOp::Loop(body), f) is Some,
    ensures
        ({
            let (d, targets) = loop_form(body).unwrap();
            &&& step_halts(m, SOp::Transfer(d, targets))
            &&& step_res(m, SOp::Transfer(d, targets)).1 == step_s(m, SOp::Loop(body), f).unwrap().1
            &&& mach_equiv(
                step_s(m, SOp::Loop(body), f).unwrap().0,
                step_res(m, SOp::Transfer(d, targets)).0,
            )
        }),
{
    let acc = affine_scan(body, 0isize, Seq::empty()).unwrap().1;
    assert(sorted_effs(Seq::<(isize, u8)>::empty()));
    lemma_scan_sorted(body, 0isize, Seq::empty());
    lemma_d_of_val(acc);
    lemma_drop0_props(acc);
    let d = d_of(acc);
    let targets = drop0(acc);
    let top = SOp::Transfer(d, targets);
    let v = cell(m);
    if v == 0 {
        crate::semantics::lemma_transfer_zero(m, top);
        crate::semantics::lemma_loop_zero(m, SOp::Loop(body));
        lemma_step_fuel(m, SOp::Loop(body), f);
    } else {
        match transfer_iters(v, d) {
            None => {
                lemma_affine_loop_none(body, acc, m, f);
            },
            Some(n) => {
                let fl = lemma_affine_loop_run(body, acc, m, n);
                // the loop's outcome is the same under either fuel
                lemma_step_fuel(m, SOp::Loop(body), f);
                lemma_step_fuel(m, SOp::Loop(body), fl);
                let ml = step_s(m, SOp::Loop(body), f).unwrap().0;
                assert(step_s(m, SOp::Loop(body), fl).unwrap() == (ml, true));
                // the transfer's outcome
                assert(step_s(m, top, 0) is Some);
                lemma_step_fuel(m, top, 0);
                let mt = transfer_mach(m, targets, n);
                assert(step_res(m, top) == (mt, true));
                // the same machine, cell by cell
                crate::semantics::lemma_steps_orbit(v, d, 256);
                lemma_orbit_closed(v, d, n);
                assert forall|i: isize| #[trigger] tread(ml.tape, i) == tread(mt.tape, i) by {
                    let q = i.wrapping_sub(m.cur);
                    lemma_wadd_sub(m.cur, i);
                    lemma_apply_tread(m.tape.insert(m.cur, 0), m.cur, targets, n, q);
                    assert(tread(ml.tape, m.cur.wrapping_add(q)) == tread(
                        m.tape,
                        m.cur.wrapping_add(q),
                    ).wrapping_add(scaled(off_val(acc, q), n)));
                    if q == 0 {
                        // the counter cell lands on zero either way
                        assert(m.cur.wrapping_add(0isize) == m.cur);
                        assert(!has_off(targets, 0));
                        assert(tread(mt.tape, m.cur) == 0) by {
                            assert(tread(m.tape.insert(m.cur, 0), m.cur) == 0);
                        }
                        assert(tread(ml.tape, m.cur) == v.wrapping_add(scaled(d, n)));
                        assert(v.wrapping_add(scaled(d, n)) == 0) by {
                            lemma_small_mod(v as nat, 256);
                            lemma_add_mod_noop(v as int, d * n, 256);
                            assert(orbit(v, d, n) == 0);
                            assert((v + n * d) % 256 == 0);
                            assert(d * n == n * d) by (nonlinear_arith);
                        }
                    } else {
                        lemma_wadd_inj(m.cur, q, 0isize);
                        assert(m.cur.wrapping_add(0isize) == m.cur);
                        assert(tread(m.tape.insert(m.cur, 0), m.cur.wrapping_add(q)) == tread(
                            m.tape,
                            m.cur.wrapping_add(q),
                        ));
                        if has_off(acc, q) {
                            assert(off_val(targets, q) == off_val(acc, q));
                        } else {
                            assert(!has_off(targets, q));
                            assert(off_val(acc, q) == 0);
                            assert(scaled(0u8, n) == 0) by {
                                assert(0 * n == 0) by (nonlinear_arith);
                            }
                            assert(tread(
                                m.tape,
                                m.cur.wrapping_add(q),
                            ).wrapping_add(0) == tread(m.tape, m.cur.wrapping_add(q)));
                        }
                    }
                }
            },
        }
    }
}

/// Running one instruction alone is stepping it.
proof fn lemma_run_one(m: Mach, op: SOp, f: nat)
    ensures
        run_s(m, seq![op], f) == step_s(m, op, f),
{
    reveal_with_fuel(run_s, 2);
    assert(seq![op][0] == op);
    assert(seq![op].drop_first() =~= Seq::<SOp>::empty());
    match step_s(m, op, f) {
        Some((m2, true)) => {
            assert(run_s(m2, seq![op].drop_first(), f) == Some((m2, true)));
        },
        _ => {},
    }
}

/// Fusing one instruction into the output does not change what running it
/// means: the fused output runs exactly when output-then-instruction does,
/// stops alike, and the final machines cannot be told apart.
#[verifier::rlimit(100)]
#[verifier::spinoff_prover]
proof fn lemma_fuse_run(m: Mach, acc: Seq<SOp>, x: SOp, f: nat)
    requires
        run_s(m, acc.push(x), f) is Some,
    ensures
        run_halts(m, fuse(acc, x)),
        run_res(m, fuse(acc, x)).1 == run_s(m, acc.push(x), f).unwrap().1,
        mach_equiv(run_res(m, fuse(acc, x)).0, run_s(m, acc.push(x), f).unwrap().0),
{
    let whole = run_s(m, acc.push(x), f).unwrap();
    assert(acc.push(x) =~= acc + seq![x]);
    lemma_run_append(m, acc, seq![x], f);
    let fused = fuse(acc, x);
    let zero_add = x is Add && x->Add_0 == 0;
    let zero_mov = x is Mov && x->Mov_0 == 0;
    let can_fuse = acc.len() > 0 && ((x is Add && acc.last() is Add) || (x is Mov
        && acc.last() is Mov)) && !zero_add && !zero_mov;
    if !zero_add && !zero_mov && !can_fuse {
        // kept as it is: the very same sequence
        assert(fused == acc.push(x));
        lemma_run_fuel(m, acc.push(x), f);
        assert(run_s(m, fused, f) is Some);
    } else if zero_add || zero_mov {
        // a vanishing instruction: dropped; the machine it would have left
        // cannot be told from the one before it
        assert(fused == acc);
        match run_s(m, acc, f) {
            Some((ma, true)) => {
                lemma_run_one(ma, x, f);
                assert(run_s(m, acc.push(x), f) == step_s(ma, x, f));
                let mx = step_s(ma, x, f).unwrap().0;
                assert(whole == (mx, true));
                lemma_run_fuel(m, acc, f);
                if zero_add {
                    assert forall|i: isize| #[trigger] tread(ma.tape, i) == tread(mx.tape, i) by {
                        assert(mx.tape == ma.tape.insert(ma.cur, cell(ma).wrapping_add(0)));
                    }
                } else {
                    assert(mx == ma);
                }
            },
            Some((ma, false)) => {
                lemma_run_fuel(m, acc, f);
            },
            None => {},
        }
    } else {
        // two adjacent instructions of one kind: fused into one
        let dl = acc.drop_last();
        let last = acc.last();
        assert(acc =~= dl + seq![last]);
        lemma_run_append(m, dl, seq![last], f);
        lemma_run_one(m, last, f);
        match run_s(m, dl, f) {
            Some((md, true)) => {
                lemma_run_one(md, last, f);
                let mb = step_s(md, last, f).unwrap().0;
                assert(run_s(m, acc, f) == Some((mb, true)));
                lemma_run_one(mb, x, f);
                assert(run_s(m, acc.push(x), f) == step_s(mb, x, f));
                let mx = step_s(mb, x, f).unwrap().0;
                assert(whole == (mx, true));
                if x is Add {
                    let a = x->Add_0;
                    let bv = last->Add_0;
                    let c = bv.wrapping_add(a);
                    let cd = cell(md);
                    lemma_wadd8_assoc(cd, bv, a);
                    assert(cell(mb) == cd.wrapping_add(bv)) by {
                        assert(mb.tape == md.tape.insert(md.cur, cd.wrapping_add(bv)));
                    }
                    assert(mx.tape == md.tape.insert(md.cur, cd.wrapping_add(bv)).insert(
                        md.cur,
                        cd.wrapping_add(bv).wrapping_add(a),
                    ));
                    if c == 0 {
                        assert(fused == dl);
                        lemma_run_fuel(m, dl, f);
                        assert forall|i: isize| #[trigger] tread(md.tape, i) == tread(
                            mx.tape,
                            i,
                        ) by {
                            assert(cd.wrapping_add(bv).wrapping_add(a) == cd.wrapping_add(c));
                            assert(cd.wrapping_add(0) == cd);
                        }
                    } else {
                        assert(fused == dl.push(SOp::Add(c)));
                        assert(fused =~= dl + seq![SOp::Add(c)]);
                        lemma_run_append(m, dl, seq![SOp::Add(c)], f);
                        lemma_run_one(md, SOp::Add(c), f);
                        let mc = step_s(md, SOp::Add(c), f).unwrap().0;
                        assert(run_s(m, fused, f) == Some((mc, true)));
                        lemma_run_fuel(m, fused, f);
                        assert(mc.tape =~= mx.tape) by {
                            assert(mc.tape == md.tape.insert(md.cur, cd.wrapping_add(c)));
                        }
                        assert(mc == mx);
                    }
                } else {
                    let a = x->Mov_0;
                    let bv = last->Mov_0;
                    let c = bv.wrapping_add(a);
                    lemma_wadd_isize_assoc(md.cur, bv, a);
                    assert(mx.cur == md.cur.wrapping_add(c));
                    assert(mx.tape == md.tape && mx.inp == md.inp && mx.out == md.out);
                    if c == 0 {
                        assert(fused == dl);
                        lemma_run_fuel(m, dl, f);
                        assert(mx.cur == md.cur) by {
                            assert(md.cur.wrapping_add(0) == md.cur);
                        }
                        assert(mx == md);
                    } else {
                        assert(fused == dl.push(SOp::Mov(c)));
                        assert(fused =~= dl + seq![SOp::Mov(c)]);
                        lemma_run_append(m, dl, seq![SOp::Mov(c)], f);
                        lemma_run_one(md, SOp::Mov(c), f);
                        let mc = step_s(md, SOp::Mov(c), f).unwrap().0;
                        assert(run_s(m, fused, f) == Some((mc, true)));
                        lemma_run_fuel(m, fused, f);
                        assert(mc == mx);
                    }
                }
            },
            Some((md, false)) => {
                // the prefix was stopped: the instruction is never reached,
                // and the fused output keeps the prefix
                assert(whole == (md, false));
                if can_fuse {
                    let c_add = acc.last()->Add_0.wrapping_add(x->Add_0);
                    let c_mov = acc.last()->Mov_0.wrapping_add(x->Mov_0);
                    if fused == dl {
                        lemma_run_fuel(m, dl, f);
                    } else {
                        let y: SOp = if x is Add {
                            SOp::Add(c_add)
                        } else {
                            SOp::Mov(c_mov)
                        };
                        assert(fused == dl.push(y));
                        assert(fused =~= dl + seq![y]);
                        lemma_run_append(m, dl, seq![y], f);
                        lemma_run_fuel(m, fused, f);
                    }
                }
            },
            None => {},
        }
    }
}

/// A loop whose counter is set and whose first body pass finishes, after
/// which the loop finishes: the whole loop finishes, ending where the
/// continued loop does.
proof fn lemma_loop_stitch(m: Mach, body: Seq<SOp>)
    requires
        cell(m) != 0,
        run_halts(m, body),
        run_res(m, body).1 == true,
        step_halts(run_res(m, body).0, SOp::Loop(body)),
    ensures
        step_halts(m, SOp::Loop(body)),
        step_res(m, SOp::Loop(body)) == step_res(run_res(m, body).0, SOp::Loop(body)),
{
    let lop = SOp::Loop(body);
    let mb = run_res(m, body).0;
    let wo = choose|wo: nat| (#[trigger] run_s(m, body, wo)) is Some;
    lemma_run_fuel(m, body, wo);
    let fo = run_fuel(m, body);
    let ws = choose|ws: nat| (#[trigger] step_s(mb, lop, ws)) is Some;
    lemma_step_fuel(mb, lop, ws);
    let fs = step_fuel(mb, lop);
    let fbig = if fo >= fs {
        fo
    } else {
        fs
    };
    lemma_run_mono(m, body, fo, fbig + 1);
    lemma_step_mono(mb, lop, fs, fbig);
    assert(step_s(m, lop, fbig + 1) == step_s(mb, lop, fbig));
    lemma_step_fuel(m, lop, fbig + 1);
}

/// A loop and the loop over its optimized body cannot be told apart, from
/// machines that cannot be: when one completes, so does the other, and
/// their outcomes are indistinguishable.
#[verifier::rlimit(100)]
#[verifier::spinoff_prover]
proof fn lemma_loop_sim(m1: Mach, m2: Mach, body: Seq<SOp>, f: nat)
    requires
        pure_ops(body),
        mach_equiv(m1, m2),
        step_s(m1, SOp::Loop(body), f) is Some,
    ensures
        step_halts(m2, SOp::Loop(opt_s(body))),
        step_res(m2, SOp::Loop(opt_s(body))).1 == step_s(m1, SOp::Loop(body), f).unwrap().1,
        mach_equiv(
            step_s(m1, SOp::Loop(body), f).unwrap().0,
            step_res(m2, SOp::Loop(opt_s(body))).0,
        ),
    decreases SOp::Loop(body), 1int, f,
{
    let optb = opt_s(body);
    let lop = SOp::Loop(optb);
    if cell(m1) == 0 {
        assert(cell(m2) == 0);
        crate::semantics::lemma_loop_zero(m2, lop);
        assert(step_s(m1, SOp::Loop(body), f) == Some((m1, true)));
    } else {
        assert(cell(m2) != 0);
        assert(f > 0) by {
            if f == 0 {
                assert(step_s(m1, SOp::Loop(body), 0) is None);
            }
        }
        match run_s(m1, body, f) {
            Some((m1b, true)) => {
                let vloop = SOp::Loop(body);
                assert(decreases_to!(vloop => vloop->Loop_0));
                lemma_opt_run(m1, body, f);
                let w = choose|w: nat| (#[trigger] run_s(m1, optb, w)) is Some;
                lemma_run_fuel(m1, optb, w);
                let fo = run_fuel(m1, optb);
                lemma_run_equiv(m1, m2, optb, fo);
                let m2b = run_s(m2, optb, fo).unwrap().0;
                assert(run_s(m2, optb, fo).unwrap().1 == true);
                assert(mach_equiv(m1b, m2b)) by {
                    assert(mach_equiv(run_res(m1, optb).0, m1b));
                    assert(mach_equiv(m1b, run_res(m1, optb).0));
                    lemma_equiv_trans(m1b, run_res(m1, optb).0, m2b);
                }
                assert(step_s(m1, SOp::Loop(body), f) == step_s(m1b, SOp::Loop(body), (f - 1) as nat));
                lemma_loop_sim(m1b, m2b, body, (f - 1) as nat);
                // stitch the unrolled iteration back on the optimized side
                assert(run_res(m2, optb) == (m2b, true)) by {
                    lemma_run_fuel(m2, optb, fo);
                }
                lemma_loop_stitch(m2, optb);
            },
            Some((m1b, false)) => {
                lemma_pure_no_input(body);
                lemma_no_stop(m1, body, f);
            },
            None => {},
        }
    }
}

/// A finished run of a prefix followed by a halting step: the whole
/// sequence halts, ending where the step does.
proof fn lemma_run_stitch(m: Mach, pre: Seq<SOp>, op: SOp)
    requires
        run_halts(m, pre),
        run_res(m, pre).1 == true,
        step_halts(run_res(m, pre).0, op),
    ensures
        run_halts(m, pre.push(op)),
        run_res(m, pre.push(op)).1 == step_res(run_res(m, pre).0, op).1,
        run_res(m, pre.push(op)).0 == step_res(run_res(m, pre).0, op).0,
{
    let mid = run_res(m, pre).0;
    let wo = choose|wo: nat| (#[trigger] run_s(m, pre, wo)) is Some;
    lemma_run_fuel(m, pre, wo);
    let fo = run_fuel(m, pre);
    let wn = choose|wn: nat| (#[trigger] step_s(mid, op, wn)) is Some;
    lemma_step_fuel(mid, op, wn);
    let fs = step_fuel(mid, op);
    let fbig = if fo >= fs {
        fo
    } else {
        fs
    };
    lemma_run_mono(m, pre, fo, fbig);
    lemma_step_mono(mid, op, fs, fbig);
    assert(pre.push(op) =~= pre + seq![op]);
    lemma_run_append(m, pre, seq![op], fbig);
    lemma_run_one(mid, op, fbig);
    assert(run_s(m, pre.push(op), fbig) == Some((step_res(mid, op).0, step_res(mid, op).1)));
    lemma_run_fuel(m, pre.push(op), fbig);
}

/// One normalized instruction from an indistinguishable machine: it halts
/// when the instruction does, stops alike, and ends indistinguishable.
#[verifier::rlimit(100)]
#[verifier::spinoff_prover]
proof fn lemma_norm_step(mi: Mach, mi2: Mach, last: SOp, f: nat)
    requires
        pure_op(last),
        mach_equiv(mi, mi2),
        step_s(mi, last, f) is Some,
    ensures
        step_halts(mi2, norm_op(last)),
        step_res(mi2, norm_op(last)).1 == step_s(mi, last, f).unwrap().1,
        mach_equiv(step_s(mi, last, f).unwrap().0, step_res(mi2, norm_op(last)).0),
    decreases last, 2int, f,
{
    let norm = norm_op(last);
    let mf = step_s(mi, last, f).unwrap().0;
    match last {
        SOp::Loop(body) => {
            lemma_loop_sim(mi, mi2, body, f);
            let nb = opt_s(body);
            if loop_form(nb) is Some {
                assert(norm == SOp::Transfer(loop_form(nb).unwrap().0, loop_form(nb).unwrap().1));
                let wl = choose|wl: nat| (#[trigger] step_s(mi2, SOp::Loop(nb), wl)) is Some;
                lemma_step_fuel(mi2, SOp::Loop(nb), wl);
                lemma_loop_to_transfer(nb, mi2, wl);
                lemma_equiv_trans(
                    mf,
                    step_s(mi2, SOp::Loop(nb), wl).unwrap().0,
                    step_res(mi2, norm).0,
                );
            } else {
                assert(norm == SOp::Loop(nb));
            }
        },
        _ => {
            assert(norm == last);
            lemma_step_equiv(mi, mi2, last, f);
            lemma_step_fuel(mi2, last, f);
        },
    }
}

/// One normalized instruction, read backwards: when it halts from the
/// optimized side's machine, the instruction halts from the original's,
/// stopping alike and ending indistinguishable.
#[verifier::rlimit(100)]
#[verifier::spinoff_prover]
proof fn lemma_norm_step_rev(mi: Mach, mi2: Mach, last: SOp, fw: nat)
    requires
        pure_op(last),
        mach_equiv(mi, mi2),
        step_s(mi2, norm_op(last), fw) is Some,
    ensures
        step_halts(mi, last),
        step_res(mi, last).1 == step_s(mi2, norm_op(last), fw).unwrap().1,
        mach_equiv(step_res(mi, last).0, step_s(mi2, norm_op(last), fw).unwrap().0),
    decreases last, 2int, fw,
{
    let norm = norm_op(last);
    let mf2 = step_s(mi2, norm, fw).unwrap().0;
    match last {
        SOp::Loop(body) => {
            let nb = opt_s(body);
            if loop_form(nb) is Some {
                assert(norm == SOp::Transfer(loop_form(nb).unwrap().0, loop_form(nb).unwrap().1));
                // from the transfer, recover the loop over the optimized
                // body, then the loop itself
                lemma_transfer_to_loop(nb, mi2, fw);
                let wl = choose|wl: nat| (#[trigger] step_s(mi2, SOp::Loop(nb), wl)) is Some;
                lemma_step_fuel(mi2, SOp::Loop(nb), wl);
                let fl = step_fuel(mi2, SOp::Loop(nb));
                lemma_loop_to_transfer(nb, mi2, fl);
                lemma_step_fuel(mi2, norm, fw);
                lemma_loop_sim_rev(mi, mi2, body, fl);
                lemma_equiv_trans(
                    step_res(mi, SOp::Loop(body)).0,
                    step_s(mi2, SOp::Loop(nb), fl).unwrap().0,
                    mf2,
                );
            } else {
                assert(norm == SOp::Loop(nb));
                lemma_loop_sim_rev(mi, mi2, body, fw);
                lemma_step_fuel(mi2, norm, fw);
            }
        },
        _ => {
            assert(norm == last);
            assert(mach_equiv(mi2, mi));
            lemma_step_equiv(mi2, mi, last, fw);
            lemma_step_fuel(mi, last, fw);
        },
    }
}

/// The optimized tree runs exactly like the tree, from any machine: it
/// completes whenever the tree's run does, is stopped at the same point,
/// and leaves an indistinguishable machine.
#[verifier::rlimit(100)]
#[verifier::spinoff_prover]
proof fn lemma_opt_run(m: Mach, ops: Seq<SOp>, f: nat)
    requires
        pure_ops(ops),
        run_s(m, ops, f) is Some,
    ensures
        run_halts(m, opt_s(ops)),
        run_res(m, opt_s(ops)).1 == run_s(m, ops, f).unwrap().1,
        mach_equiv(run_res(m, opt_s(ops)).0, run_s(m, ops, f).unwrap().0),
    decreases ops, 3int, f,
{
    if ops.len() == 0 {
        assert(opt_s(ops) =~= ops);
        lemma_run_fuel(m, ops, f);
    } else {
        let init = ops.drop_last();
        let last = ops.last();
        let whole = run_s(m, ops, f).unwrap();
        assert(ops =~= init + seq![last]);
        lemma_run_append(m, init, seq![last], f);
        lemma_opt_run(m, init, f);
        let acco = opt_s(init);
        match run_s(m, init, f) {
            Some((mi, true)) => {
                lemma_run_one(mi, last, f);
                let mi2 = run_res(m, acco).0;
                assert(mach_equiv(mi, mi2)) by {
                    assert(mach_equiv(mi2, mi));
                }
                let mf = step_s(mi, last, f).unwrap().0;
                let rf = step_s(mi, last, f).unwrap().1;
                assert(whole == (mf, rf));
                let norm = norm_op(last);
                assert(pure_op(last));
                assert(decreases_to!(ops => ops[ops.len() - 1]));
                lemma_norm_step(mi, mi2, last, f);
                // run the optimized prefix, then the normalized instruction,
                // and fold the fusion over it
                lemma_run_stitch(m, acco, norm);
                let mf2 = step_res(mi2, norm).0;
                let rf2 = step_res(mi2, norm).1;
                let wp = choose|wp: nat| (#[trigger] run_s(m, acco.push(norm), wp)) is Some;
                lemma_run_fuel(m, acco.push(norm), wp);
                lemma_fuse_run(m, acco, norm, run_fuel(m, acco.push(norm)));
                assert(opt_s(ops) == fuse(acco, norm));
                assert(mach_equiv(run_res(m, opt_s(ops)).0, mf2));
                assert(mach_equiv(mf2, mf));
                lemma_equiv_trans(run_res(m, opt_s(ops)).0, mf2, mf);
            },
            Some((mi, false)) => {
                lemma_pure_no_input(init);
                lemma_no_stop(m, init, f);
            },
            None => {},
        }
    }
}

/// Reading a fusion backwards: when the fused output's run finishes, so
/// does output-then-instruction, stopping alike and ending
/// indistinguishable.
#[verifier::rlimit(100)]
#[verifier::spinoff_prover]
proof fn lemma_fuse_run_rev(m: Mach, acc: Seq<SOp>, x: SOp, f: nat)
    requires
        x is Add || x is Mov,
        run_s(m, fuse(acc, x), f) is Some,
    ensures
        run_halts(m, acc.push(x)),
        run_res(m, acc.push(x)).1 == run_s(m, fuse(acc, x), f).unwrap().1,
        mach_equiv(run_res(m, acc.push(x)).0, run_s(m, fuse(acc, x), f).unwrap().0),
{
    let fused = fuse(acc, x);
    let whole = run_s(m, fused, f).unwrap();
    assert(acc.push(x) =~= acc + seq![x]);
    let zero_add = x is Add && x->Add_0 == 0;
    let zero_mov = x is Mov && x->Mov_0 == 0;
    let can_fuse = acc.len() > 0 && ((x is Add && acc.last() is Add) || (x is Mov
        && acc.last() is Mov)) && !zero_add && !zero_mov;
    if !zero_add && !zero_mov && !can_fuse {
        assert(fused == acc.push(x));
        lemma_run_fuel(m, acc.push(x), f);
    } else if zero_add || zero_mov {
        assert(fused == acc);
        lemma_run_append(m, acc, seq![x], f);
        match run_s(m, acc, f) {
            Some((ma, true)) => {
                lemma_run_one(ma, x, f);
                let mx = step_s(ma, x, f).unwrap().0;
                assert(run_s(m, acc.push(x), f) == Some((mx, true)));
                lemma_run_fuel(m, acc.push(x), f);
                if zero_add {
                    assert forall|i: isize| #[trigger] tread(mx.tape, i) == tread(ma.tape, i) by {
                        assert(mx.tape == ma.tape.insert(ma.cur, cell(ma).wrapping_add(0)));
                    }
                } else {
                    assert(mx == ma);
                }
            },
            Some((ma, false)) => {
                assert(run_s(m, acc.push(x), f) == Some((ma, false)));
                lemma_run_fuel(m, acc.push(x), f);
            },
            None => {},
        }
    } else {
        let dl = acc.drop_last();
        let last = acc.last();
        assert(acc =~= dl + seq![last]);
        let c_is_zero = fused == dl;
        // the run of the fused output passes through the prefix
        assert(run_s(m, dl, f) is Some) by {
            if !c_is_zero {
                assert(fused =~= dl + seq![fused.last()]);
                lemma_run_append(m, dl, seq![fused.last()], f);
            }
        }
        match run_s(m, dl, f) {
            Some((md, true)) => {
                // rebuild the two-instruction run
                lemma_run_one(md, last, f);
                let mb = step_s(md, last, f).unwrap().0;
                assert(run_s(m, acc, f) == Some((mb, true))) by {
                    lemma_run_append(m, dl, seq![last], f);
                }
                lemma_run_append(m, acc, seq![x], f);
                lemma_run_one(mb, x, f);
                let mx = step_s(mb, x, f).unwrap().0;
                assert(run_s(m, acc.push(x), f) == Some((mx, true)));
                lemma_run_fuel(m, acc.push(x), f);
                if x is Add {
                    let a = x->Add_0;
                    let bv = last->Add_0;
                    let c = bv.wrapping_add(a);
                    let cd = cell(md);
                    lemma_wadd8_assoc(cd, bv, a);
                    assert(cell(mb) == cd.wrapping_add(bv)) by {
                        assert(mb.tape == md.tape.insert(md.cur, cd.wrapping_add(bv)));
                    }
                    assert(mx.tape == md.tape.insert(md.cur, cd.wrapping_add(bv)).insert(
                        md.cur,
                        cd.wrapping_add(bv).wrapping_add(a),
                    ));
                    if c == 0 {
                        assert(whole == (md, true));
                        assert forall|i: isize| #[trigger] tread(mx.tape, i) == tread(
                            md.tape,
                            i,
                        ) by {
                            assert(cd.wrapping_add(bv).wrapping_add(a) == cd.wrapping_add(c));
                            assert(cd.wrapping_add(0) == cd);
                        }
                    } else {
                        assert(fused == dl.push(SOp::Add(c)));
                        assert(fused =~= dl + seq![SOp::Add(c)]);
                        lemma_run_append(m, dl, seq![SOp::Add(c)], f);
                        lemma_run_one(md, SOp::Add(c), f);
                        let mc = step_s(md, SOp::Add(c), f).unwrap().0;
                        assert(whole == (mc, true));
                        assert(mc.tape =~= mx.tape) by {
                            assert(mc.tape == md.tape.insert(md.cur, cd.wrapping_add(c)));
                        }
                        assert(mc == mx);
                    }
                } else {
                    let a = x->Mov_0;
                    let bv = last->Mov_0;
                    let c = bv.wrapping_add(a);
                    lemma_wadd_isize_assoc(md.cur, bv, a);
                    assert(mx.cur == md.cur.wrapping_add(c));
                    if c == 0 {
                        assert(whole == (md, true));
                        assert(mx.cur == md.cur) by {
                            assert(md.cur.wrapping_add(0) == md.cur);
                        }
                        assert(mx == md);
                    } else {
                        assert(fused == dl.push(SOp::Mov(c)));
                        assert(fused =~= dl + seq![SOp::Mov(c)]);
                        lemma_run_append(m, dl, seq![SOp::Mov(c)], f);
                        lemma_run_one(md, SOp::Mov(c), f);
                        let mc = step_s(md, SOp::Mov(c), f).unwrap().0;
                        assert(whole == (mc, true));
                        assert(mc == mx);
                    }
                }
            },
            Some((md, false)) => {
                assert(whole == (md, false)) by {
                    if !c_is_zero {
                        assert(fused =~= dl + seq![fused.last()]);
                        lemma_run_append(m, dl, seq![fused.last()], f);
                    }
                }
                lemma_run_append(m, acc, seq![x], f);
                lemma_run_append(m, dl, seq![last], f);
                assert(run_s(m, acc, f) == Some((md, false)));
                assert(run_s(m, acc.push(x), f) == Some((md, false)));
                lemma_run_fuel(m, acc.push(x), f);
            },
            None => {
                assert(run_s(m, fused, f) is None) by {
                    if !c_is_zero {
                        assert(fused =~= dl + seq![fused.last()]);
                        lemma_run_append(m, dl, seq![fused.last()], f);
                    }
                }
            },
        }
    }
}

/// Reading the loop rewrite backwards: when the loop over the optimized
/// body completes, the loop itself completes, from machines that cannot be
/// told apart, with indistinguishable outcomes.
#[verifier::rlimit(100)]
#[verifier::spinoff_prover]
proof fn lemma_loop_sim_rev(m1: Mach, m2: Mach, body: Seq<SOp>, f: nat)
    requires
        pure_ops(body),
        mach_equiv(m1, m2),
        step_s(m2, SOp::Loop(opt_s(body)), f) is Some,
    ensures
        step_halts(m1, SOp::Loop(body)),
        step_res(m1, SOp::Loop(body)).1 == step_s(m2, SOp::Loop(opt_s(body)), f).unwrap().1,
        mach_equiv(
            step_res(m1, SOp::Loop(body)).0,
            step_s(m2, SOp::Loop(opt_s(body)), f).unwrap().0,
        ),
    decreases SOp::Loop(body), 1int, f,
{
    let optb = opt_s(body);
    let lop = SOp::Loop(optb);
    let bop = SOp::Loop(body);
    if cell(m2) == 0 {
        assert(cell(m1) == 0);
        crate::semantics::lemma_loop_zero(m1, bop);
        assert(step_s(m2, lop, f) == Some((m2, true)));
    } else {
        assert(cell(m1) != 0);
        assert(f > 0) by {
            if f == 0 {
                assert(step_s(m2, lop, 0) is None);
            }
        }
        match run_s(m2, optb, f) {
            Some((m2b, true)) => {
                let vloop = SOp::Loop(body);
                assert(decreases_to!(vloop => vloop->Loop_0));
                lemma_opt_run_rev(m2, body, f);
                let w = choose|w: nat| (#[trigger] run_s(m2, body, w)) is Some;
                lemma_run_fuel(m2, body, w);
                let fo = run_fuel(m2, body);
                assert(mach_equiv(m2, m1));
                lemma_run_equiv(m2, m1, body, fo);
                let m1b = run_s(m1, body, fo).unwrap().0;
                assert(run_s(m1, body, fo).unwrap().1 == true) by {
                    lemma_pure_no_input(body);
                    lemma_no_stop(m1, body, fo);
                }
                assert(mach_equiv(m1b, m2b)) by {
                    assert(mach_equiv(m1b, run_res(m2, body).0));
                    assert(mach_equiv(run_res(m2, body).0, m2b));
                    lemma_equiv_trans(m1b, run_res(m2, body).0, m2b);
                }
                assert(step_s(m2, lop, f) == step_s(m2b, lop, (f - 1) as nat));
                lemma_loop_sim_rev(m1b, m2b, body, (f - 1) as nat);
                // stitch the unrolled iteration back on the original side
                assert(run_res(m1, body) == (m1b, true)) by {
                    lemma_run_fuel(m1, body, fo);
                }
                lemma_loop_stitch(m1, body);
            },
            Some((m2b, false)) => {
                // the optimized body reads no input either, so it cannot stop
                lemma_pure_no_input(body);
                lemma_opt_no_input(body);
                lemma_no_stop(m2, optb, f);
            },
            None => {},
        }
    }
}

/// The optimized tree's runs read backwards: whenever one finishes, the
/// tree's run finishes, stopped alike, with an indistinguishable machine.
#[verifier::rlimit(100)]
#[verifier::spinoff_prover]
proof fn lemma_opt_run_rev(m: Mach, ops: Seq<SOp>, f: nat)
    requires
        pure_ops(ops),
        run_s(m, opt_s(ops), f) is Some,
    ensures
        run_halts(m, ops),
        run_res(m, ops).1 == run_s(m, opt_s(ops), f).unwrap().1,
        mach_equiv(run_res(m, ops).0, run_s(m, opt_s(ops), f).unwrap().0),
    decreases ops, 3int, f,
{
    if ops.len() == 0 {
        assert(opt_s(ops) =~= ops);
        lemma_run_fuel(m, opt_s(ops), f);
    } else {
        let init = ops.drop_last();
        let last = ops.last();
        let whole = run_s(m, opt_s(ops), f).unwrap();
        let acco = opt_s(init);
        let norm = norm_op(last);
        assert(opt_s(ops) == fuse(acco, norm));
        // undo the fusion: the optimized prefix, then the normalized
        // instruction
        let fw: nat = if norm is Add || norm is Mov {
            lemma_fuse_run_rev(m, acco, norm, f);
            let w = choose|w: nat| (#[trigger] run_s(m, acco.push(norm), w)) is Some;
            lemma_run_fuel(m, acco.push(norm), w);
            run_fuel(m, acco.push(norm))
        } else {
            assert(fuse(acco, norm) == acco.push(norm));
            lemma_run_fuel(m, acco.push(norm), f);
            f
        };
        assert(run_s(m, acco.push(norm), fw) is Some);
        let part = run_s(m, acco.push(norm), fw).unwrap();
        assert(part.1 == whole.1 && mach_equiv(part.0, whole.0)) by {
            if norm is Add || norm is Mov {
                assert(run_s(m, acco.push(norm), fw) == Some(run_res(m, acco.push(norm))));
            } else {
                assert(run_s(m, acco.push(norm), fw) == run_s(m, opt_s(ops), f));
            }
        }
        assert(acco.push(norm) =~= acco + seq![norm]);
        lemma_run_append(m, acco, seq![norm], fw);
        lemma_opt_run_rev(m, init, fw);
        match run_s(m, acco, fw) {
            Some((mi2, true)) => {
                lemma_run_one(mi2, norm, fw);
                assert(run_s(m, acco.push(norm), fw) == step_s(mi2, norm, fw));
                let mf2 = step_s(mi2, norm, fw).unwrap().0;
                let rf2 = step_s(mi2, norm, fw).unwrap().1;
                assert(part == (mf2, rf2));
                let mi = run_res(m, init).0;
                assert(run_res(m, init).1 == true);
                assert(mach_equiv(mi, mi2));
                // the original instruction from the original prefix's machine
                assert(pure_op(last));
                assert(decreases_to!(ops => ops[ops.len() - 1]));
                lemma_norm_step_rev(mi, mi2, last, fw);
                // stitch: the original prefix, then the original instruction
                lemma_run_stitch(m, init, last);
                assert(ops =~= init.push(last));
                lemma_equiv_trans(run_res(m, ops).0, mf2, whole.0);
            },
            Some((mi2, false)) => {
                lemma_pure_no_input(init);
                lemma_opt_no_input(init);
                lemma_no_stop(m, acco, fw);
            },
            None => {},
        }
    }
}

/// From a completed transfer, recover the completed loop it replaced.
proof fn lemma_transfer_to_loop(body: Seq<SOp>, m: Mach, f: nat)
    requires
        loop_form(body) is Some,
        step_s(m, SOp::Transfer(loop_form(body).unwrap().0, loop_form(body).unwrap().1), f)
            is Some,
    ensures
        step_halts(m, SOp::Loop(body)),
{
    let acc = affine_scan(body, 0isize, Seq::empty()).unwrap().1;
    assert(sorted_effs(Seq::<(isize, u8)>::empty()));
    lemma_scan_sorted(body, 0isize, Seq::empty());
    lemma_d_of_val(acc);
    let v = cell(m);
    if v == 0 {
        crate::semantics::lemma_loop_zero(m, SOp::Loop(body));
    } else {
        // a completed transfer has a finite count, so the loop completes
        let n = transfer_iters(v, d_of(acc)).unwrap();
        let fl = lemma_affine_loop_run(body, acc, m, n);
        lemma_step_fuel(m, SOp::Loop(body), fl);
    }
}

/// The optimizer reads no input it was not given: optimizing an
/// input-free tree yields an input-free tree.
proof fn lemma_opt_no_input(ops: Seq<SOp>)
    requires
        no_input(ops),
    ensures
        no_input(opt_s(ops)),
    decreases ops,
{
    if ops.len() > 0 {
        lemma_opt_no_input(ops.drop_last());
        let last = ops.last();
        assert(no_input_op(last));
        assert(decreases_to!(ops => ops[ops.len() - 1]));
        let norm = norm_op(last);
        assert(no_input_op(norm)) by {
            match last {
                SOp::Loop(body) => {
                    lemma_opt_no_input(body);
                },
                _ => {},
            }
        }
        lemma_fuse_no_input(opt_s(ops.drop_last()), norm);
    }
}

/// Fusing an input-free instruction keeps the output input-free.
proof fn lemma_fuse_no_input(acc: Seq<SOp>, op: SOp)
    requires
        no_input(acc),
        no_input_op(op),
    ensures
        no_input(fuse(acc, op)),
{
    let r = fuse(acc, op);
    if r == acc {
    } else if acc.len() > 0 && r == acc.drop_last() {
    } else if acc.len() > 0 && fusable(acc.last(), op) && r != acc.push(op) {
        assert(r.drop_last() =~= acc.drop_last());
        assert(no_input_op(r.last()));
    } else {
        assert(r == acc.push(op));
        assert(r.drop_last() =~= acc);
    }
}

/// The optimizer is semantics-preserving for every tree of `Add`, `Mov`
/// and `Loop`: the tree's run and the optimized tree's run finish from
/// exactly the same machines, and where they finish they leave the same
/// tape contents, the same cursor, and the same output.
pub proof fn lemma_optimize_preserves_behaviour(m: Mach, ops: Seq<SOp>)
    requires
        pure_ops(ops),
    ensures
        run_halts(m, ops) <==> run_halts(m, opt_s(ops)),
        run_halts(m, ops) ==> run_res(m, opt_s(ops)).1 == run_res(m, ops).1,
        run_halts(m, ops) ==> mach_equiv(run_res(m, opt_s(ops)).0, run_res(m, ops).0),
{
    if run_halts(m, ops) {
        let fw = choose|fw: nat| (#[trigger] run_s(m, ops, fw)) is Some;
        lemma_run_fuel(m, ops, fw);
        lemma_opt_run(m, ops, fw);
    }
    if run_halts(m, opt_s(ops)) {
        let fw = choose|fw: nat| (#[trigger] run_s(m, opt_s(ops), fw)) is Some;
        lemma_run_fuel(m, opt_s(ops), fw);
        lemma_opt_run_rev(m, ops, fw);
    }
}


} // verus!
