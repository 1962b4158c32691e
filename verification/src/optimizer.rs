//! The optimizer: rewrites an instruction tree into an equivalent, faster
//! one.
//!
//! Three flat passes — adjacent `Add` fusion, adjacent `Mov` fusion and
//! zero-op elimination — are applied to a fixed point in one left-to-right
//! scan, loop bodies are optimized bottom-up, and an affine, pointer-neutral
//! loop is replaced by its closed form, a `Transfer`. The whole rewrite is
//! specified by [`opt_s`], and `OpStream::optimize` is proved to produce
//! exactly that tree.

use vstd::prelude::*;

use crate::structs::{lemma_ops_view_index, op_view, ops_view, Op, OpStream, SOp};

verus! {

/// Append a normalized instruction to normalized output: drop it when it
/// does nothing, fuse it with an adjacent instruction of the same kind
/// (dropping a fusion that cancels to nothing), and otherwise keep it.
pub open spec fn fuse(acc: Seq<SOp>, op: SOp) -> Seq<SOp> {
    match op {
        SOp::Add(a) => if a == 0 {
            acc
        } else if acc.len() > 0 && acc.last() is Add {
            let c = acc.last()->Add_0.wrapping_add(a);
            if c == 0 {
                acc.drop_last()
            } else {
                acc.drop_last().push(SOp::Add(c))
            }
        } else {
            acc.push(op)
        },
        SOp::Mov(a) => if a == 0 {
            acc
        } else if acc.len() > 0 && acc.last() is Mov {
            let c = acc.last()->Mov_0.wrapping_add(a);
            if c == 0 {
                acc.drop_last()
            } else {
                acc.drop_last().push(SOp::Mov(c))
            }
        } else {
            acc.push(op)
        },
        _ => acc.push(op),
    }
}

/// Add `x` to the net effect recorded for `off` in a sequence of effects
/// sorted by strictly ascending offset, inserting a fresh entry where none
/// exists.
pub open spec fn sorted_insert_add(s: Seq<(isize, u8)>, off: isize, x: u8) -> Seq<(isize, u8)>
    decreases s.len(),
{
    if s.len() == 0 {
        seq![(off, x)]
    } else if s[0].0 == off {
        seq![(off, s[0].1.wrapping_add(x))] + s.drop_first()
    } else if off < s[0].0 {
        seq![(off, x)] + s
    } else {
        seq![s[0]] + sorted_insert_add(s.drop_first(), off, x)
    }
}

/// Walk a loop body abstractly, accumulating the net cursor displacement
/// and, per touched offset, the net additive effect of one pass. `None`
/// when the body holds anything but `Add` and `Mov`.
pub open spec fn affine_scan(ops: Seq<SOp>, rel: isize, acc: Seq<(isize, u8)>) -> Option<
    (isize, Seq<(isize, u8)>),
>
    decreases ops.len(),
{
    if ops.len() == 0 {
        Some((rel, acc))
    } else {
        match ops[0] {
            SOp::Add(x) => affine_scan(ops.drop_first(), rel, sorted_insert_add(acc, rel, x)),
            SOp::Mov(x) => affine_scan(ops.drop_first(), rel.wrapping_add(x), acc),
            _ => None,
        }
    }
}

/// The net effect recorded at offset zero: the loop's own counter delta.
pub open spec fn d_of(s: Seq<(isize, u8)>) -> u8
    decreases s.len(),
{
    if s.len() == 0 {
        0
    } else if s.last().0 == 0 {
        s.last().1
    } else {
        d_of(s.drop_last())
    }
}

/// The effects at every offset but zero, in their recorded order.
pub open spec fn drop0(s: Seq<(isize, u8)>) -> Seq<(isize, u8)>
    decreases s.len(),
{
    if s.len() == 0 {
        Seq::empty()
    } else if s.last().0 == 0 {
        drop0(s.drop_last())
    } else {
        drop0(s.drop_last()).push(s.last())
    }
}

/// The closed form of a loop body, when it has one: the body must hold only
/// `Add` and `Mov`, and one pass must restore the cursor. The result is the
/// counter delta and the per-offset effects in ascending offset order.
pub open spec fn loop_form(body: Seq<SOp>) -> Option<(u8, Seq<(isize, u8)>)> {
    match affine_scan(body, 0, Seq::empty()) {
        None => None,
        Some((rel, acc)) => if rel == 0 {
            Some((d_of(acc), drop0(acc)))
        } else {
            None
        },
    }
}

/// Normalize one instruction: optimize a loop's body bottom-up, then
/// replace the loop by its closed form when it has one; anything else is
/// kept as it is.
pub open spec fn norm_op(op: SOp) -> SOp
    decreases op,
{
    match op {
        SOp::Loop(body) => {
            let nb = opt_s(body);
            match loop_form(nb) {
                Some((d, targets)) => SOp::Transfer(d, targets),
                None => SOp::Loop(nb),
            }
        },
        _ => op,
    }
}

/// The optimizer: normalize each instruction left to right and fuse it
/// into the output.
pub open spec fn opt_s(ops: Seq<SOp>) -> Seq<SOp>
    decreases ops,
{
    if ops.len() == 0 {
        Seq::empty()
    } else {
        fuse(opt_s(ops.drop_last()), norm_op(ops.last()))
    }
}

/// Two adjacent instructions the optimizer would fuse.
pub open spec fn fusable(x: SOp, y: SOp) -> bool {
    (x is Add && y is Add) || (x is Mov && y is Mov)
}

/// One instruction in optimized form: it does something, and an optimized
/// loop has an optimized body with no closed form (else it would have
/// become a `Transfer`).
pub open spec fn elem_norm(op: SOp) -> bool
    decreases op,
{
    match op {
        SOp::Add(a) => a != 0,
        SOp::Mov(a) => a != 0,
        SOp::Loop(body) => seq_norm(body) && loop_form(body) is None,
        _ => true,
    }
}

/// A sequence in optimized form: every instruction is, and no two adjacent
/// ones would fuse.
pub open spec fn seq_norm(s: Seq<SOp>) -> bool
    decreases s,
{
    s.len() == 0 || {
        &&& seq_norm(s.drop_last())
        &&& elem_norm(s.last())
        &&& (s.len() < 2 || !fusable(s[s.len() - 2], s.last()))
    }
}

/// What [`fuse`] accepts: an instruction in optimized form, or a vanishing
/// `Add` or `Mov`, which it drops.
pub open spec fn fuse_ok(op: SOp) -> bool {
    match op {
        SOp::Add(_) => true,
        SOp::Mov(_) => true,
        _ => elem_norm(op),
    }
}

/// Fusing an acceptable instruction into optimized output keeps the output
/// optimized.
proof fn lemma_fuse_norm(acc: Seq<SOp>, op: SOp)
    requires
        seq_norm(acc),
        fuse_ok(op),
    ensures
        seq_norm(fuse(acc, op)),
{
    let r = fuse(acc, op);
    if (op is Add && op->Add_0 != 0) || (op is Mov && op->Mov_0 != 0) {
        if acc.len() > 0 && fusable(acc.last(), op) {
            let c = if op is Add {
                SOp::Add(acc.last()->Add_0.wrapping_add(op->Add_0))
            } else {
                SOp::Mov(acc.last()->Mov_0.wrapping_add(op->Mov_0))
            };
            if r != acc.drop_last() {
                let r2 = acc.drop_last().push(c);
                assert(r == r2);
                assert(seq_norm(acc.drop_last()));
                assert(r2.drop_last() =~= acc.drop_last());
                assert(r2.last() == c);
                assert(elem_norm(c));
                if r2.len() >= 2 {
                    assert(r2[r2.len() - 2] == acc.drop_last()[acc.drop_last().len() - 1]);
                    assert(acc.drop_last().last() == acc[acc.len() - 2]);
                    assert(!fusable(acc[acc.len() - 2], acc.last()));
                    assert(!fusable(r2[r2.len() - 2], c));
                }
                assert(seq_norm(r2.drop_last()));
                assert(elem_norm(r2.last()));
                assert(r2.len() < 2 || !fusable(r2[r2.len() - 2], r2.last()));
                assert(seq_norm(r2)) by {
                    reveal_with_fuel(seq_norm, 2);
                }
            }
        } else {
            let r2 = acc.push(op);
            assert(r == r2);
            assert(r2.drop_last() =~= acc);
            assert(r2.last() == op);
            if r2.len() >= 2 {
                assert(r2[r2.len() - 2] == acc.last());
                assert(!fusable(acc.last(), op));
            }
            assert(seq_norm(r2.drop_last()));
            assert(elem_norm(r2.last()));
            assert(r2.len() < 2 || !fusable(r2[r2.len() - 2], r2.last()));
            assert(seq_norm(r2)) by {
                reveal_with_fuel(seq_norm, 2);
            }
        }
    } else if op is Add || op is Mov {
        assert(r == acc);
    } else {
        let r2 = acc.push(op);
        assert(r == r2);
        assert(r2.drop_last() =~= acc);
        assert(r2.last() == op);
        if r2.len() >= 2 {
            assert(r2[r2.len() - 2] == acc.last());
            assert(!fusable(acc.last(), op));
        }
        assert(seq_norm(r2.drop_last()));
        assert(elem_norm(r2.last()));
        assert(r2.len() < 2 || !fusable(r2[r2.len() - 2], r2.last()));
        assert(seq_norm(r2)) by {
            reveal_with_fuel(seq_norm, 2);
        }
    }
}

/// The optimizer's output is in optimized form.
pub proof fn lemma_opt_norm(s: Seq<SOp>)
    ensures
        seq_norm(opt_s(s)),
    decreases s,
{
    if s.len() > 0 {
        lemma_opt_norm(s.drop_last());
        let last = s.last();
        assert(decreases_to!(s => s[s.len() - 1]));
        match last {
            SOp::Loop(body) => {
                lemma_opt_norm(body);
            },
            _ => {},
        }
        lemma_fuse_norm(opt_s(s.drop_last()), norm_op(last));
    }
}

/// The optimizer leaves a tree in optimized form as it is.
pub proof fn lemma_opt_id(s: Seq<SOp>)
    requires
        seq_norm(s),
    ensures
        opt_s(s) == s,
    decreases s,
{
    if s.len() > 0 {
        lemma_opt_id(s.drop_last());
        let last = s.last();
        assert(elem_norm(last));
        assert(decreases_to!(s => s[s.len() - 1]));
        match last {
            SOp::Loop(body) => {
                assert(seq_norm(body) && loop_form(body) is None);
                lemma_opt_id(body);
            },
            _ => {},
        }
        assert(norm_op(last) == last);
        if s.len() >= 2 {
            assert(s.drop_last().last() == s[s.len() - 2]);
            assert(!fusable(s[s.len() - 2], last));
        }
        assert(fuse(s.drop_last(), last) == s.drop_last().push(last));
        assert(s.drop_last().push(last) =~~= s);
    }
}

/// Idempotence: optimizing twice yields the same tree as optimizing once.
pub proof fn lemma_optimize_idempotent(s: Seq<SOp>)
    ensures
        opt_s(opt_s(s)) == opt_s(s),
{
    lemma_opt_norm(s);
    lemma_opt_id(opt_s(s));
}

/// Copy a transfer's target list.
fn copy_targets(targets: &Vec<(isize, u8)>) -> (r: Vec<(isize, u8)>)
    ensures
        r@ == targets@,
{
    let mut r: Vec<(isize, u8)> = Vec::new();
    let mut i: usize = 0;
    while i < targets.len()
        invariant
            i <= targets@.len(),
            r@ == targets@.take(i as int),
        decreases targets@.len() - i,
    {
        r.push(targets[i]);
        proof {
            assert(targets@.take(i as int).push(targets@[i as int]) =~= targets@.take(
                i as int + 1,
            ));
        }
        i = i + 1;
    }
    proof {
        assert(targets@.take(targets@.len() as int) =~= targets@);
    }
    r
}

/// Fuse a normalized instruction into normalized output, as [`fuse`] says.
fn fuse_push(acc: &mut Vec<Op>, op: Op)
    ensures
        ops_view(final(acc)@) == fuse(ops_view(old(acc)@), op_view(op)),
{
    proof {
        if acc@.len() > 0 {
            crate::structs::lemma_ops_view_drop_last(acc@);
        }
    }
    let fused: Option<Op> = if acc.len() > 0 {
        match (&acc[acc.len() - 1], &op) {
            (Op::Add(b), Op::Add(a)) => Some(Op::Add(b.wrapping_add(*a))),
            (Op::Mov(b), Op::Mov(a)) => Some(Op::Mov(b.wrapping_add(*a))),
            _ => None,
        }
    } else {
        None
    };
    match op {
        Op::Add(a) => {
            if a == 0 {
                return ;
            }
            match fused {
                Some(c) => {
                    acc.pop();
                    if let Op::Add(cv) = c {
                        if cv != 0 {
                            proof {
                                crate::structs::lemma_ops_view_push(
                                    old(acc)@.drop_last(),
                                    Op::Add(cv),
                                );
                            }
                            acc.push(Op::Add(cv));
                        }
                    }
                },
                None => {
                    proof {
                        crate::structs::lemma_ops_view_push(old(acc)@, op);
                    }
                    acc.push(op);
                },
            }
        },
        Op::Mov(a) => {
            if a == 0 {
                return ;
            }
            match fused {
                Some(c) => {
                    acc.pop();
                    if let Op::Mov(cv) = c {
                        if cv != 0 {
                            proof {
                                crate::structs::lemma_ops_view_push(
                                    old(acc)@.drop_last(),
                                    Op::Mov(cv),
                                );
                            }
                            acc.push(Op::Mov(cv));
                        }
                    }
                },
                None => {
                    proof {
                        crate::structs::lemma_ops_view_push(old(acc)@, op);
                    }
                    acc.push(op);
                },
            }
        },
        _ => {
            proof {
                crate::structs::lemma_ops_view_push(old(acc)@, op);
            }
            acc.push(op);
        },
    }
}

impl OpStream {
    /// Rewrite this stream into its optimized form: adjacent `Add`s and
    /// `Mov`s fused, vanishing instructions dropped, loop bodies optimized
    /// bottom-up, and every affine pointer-neutral loop replaced by its
    /// closed-form `Transfer`.
    pub fn optimize(&mut self)
        ensures
            ops_view(final(self).ops@) == opt_s(ops_view(old(self).ops@)),
    {
        let new_ops = optimize_ops(&self.ops);
        self.ops = new_ops;
    }

    /// The closed form of this stream taken as a loop body, when it has
    /// one, as [`loop_form`] says of an already optimized body.
    fn find_alternative(&self) -> (r: Option<Op>)
        ensures
            match loop_form(ops_view(self.ops@)) {
                Some((d, targets)) => r is Some && op_view(r.unwrap()) == SOp::Transfer(
                    d,
                    targets,
                ),
                None => r is None,
            },
    {
        let ghost vbody = ops_view(self.ops@);
        let mut acc: Vec<(isize, u8)> = Vec::new();
        let mut rel: isize = 0;
        let mut i: usize = 0;
        proof {
            assert(vbody.skip(0) =~= vbody);
        }
        while i < self.ops.len()
            invariant
                i <= self.ops@.len(),
                vbody == ops_view(self.ops@),
                affine_scan(vbody, 0, Seq::empty()) == affine_scan(
                    vbody.skip(i as int),
                    rel,
                    acc@,
                ),
            decreases self.ops@.len() - i,
        {
            proof {
                lemma_ops_view_index(self.ops@);
                assert(vbody.skip(i as int)[0] == op_view(self.ops@[i as int]));
                assert(vbody.skip(i as int).drop_first() =~= vbody.skip(i as int + 1));
            }
            match &self.ops[i] {
                Op::Add(x) => {
                    sorted_add(&mut acc, rel, *x);
                },
                Op::Mov(x) => {
                    rel = rel.wrapping_add(*x);
                },
                _ => {
                    return None;
                },
            }
            i = i + 1;
        }
        proof {
            lemma_ops_view_index(self.ops@);
            assert(vbody.skip(i as int).len() == 0);
        }
        if rel != 0 {
            return None;
        }
        // One pass is affine and restores the cursor: extract the counter
        // delta and the other offsets' effects.
        let mut d: u8 = 0;
        let mut targets: Vec<(isize, u8)> = Vec::new();
        let mut j: usize = 0;
        while j < acc.len()
            invariant
                j <= acc@.len(),
                d == d_of(acc@.take(j as int)),
                targets@ == drop0(acc@.take(j as int)),
            decreases acc@.len() - j,
        {
            let (off, x) = acc[j];
            if off == 0 {
                d = x;
            } else {
                targets.push((off, x));
            }
            proof {
                assert(acc@.take(j as int + 1).drop_last() =~= acc@.take(j as int));
                assert(acc@.take(j as int + 1).last() == acc@[j as int]);
            }
            j = j + 1;
        }
        proof {
            assert(acc@.take(acc@.len() as int) =~= acc@);
        }
        Some(Op::Transfer(d, targets))
    }
}

/// Record an `Add` of `x` at offset `off` in an effect list sorted by
/// strictly ascending offset, as [`sorted_insert_add`] says.
fn sorted_add(acc: &mut Vec<(isize, u8)>, off: isize, x: u8)
    ensures
        final(acc)@ == sorted_insert_add(old(acc)@, off, x),
{
    let mut j: usize = 0;
    proof {
        assert(acc@.skip(0) =~= acc@);
        assert(acc@.take(0) + sorted_insert_add(acc@.skip(0), off, x) =~= sorted_insert_add(
            acc@,
            off,
            x,
        ));
    }
    while j < acc.len() && acc[j].0 < off
        invariant
            j <= acc@.len(),
            acc@ == old(acc)@,
            forall|k: int| 0 <= k < j ==> acc@[k].0 < off,
            sorted_insert_add(old(acc)@, off, x) == acc@.take(j as int) + sorted_insert_add(
                acc@.skip(j as int),
                off,
                x,
            ),
        decreases acc@.len() - j,
    {
        proof {
            assert(acc@.skip(j as int)[0] == acc@[j as int]);
            assert(acc@.skip(j as int).drop_first() =~= acc@.skip(j as int + 1));
            assert(acc@.take(j as int + 1) =~= acc@.take(j as int).push(acc@[j as int]));
            assert(acc@.take(j as int).push(acc@[j as int]) + sorted_insert_add(
                acc@.skip(j as int + 1),
                off,
                x,
            ) =~= acc@.take(j as int) + (seq![acc@[j as int]] + sorted_insert_add(
                acc@.skip(j as int + 1),
                off,
                x,
            )));
        }
        j = j + 1;
    }
    proof {
        assert(acc@.skip(j as int)[0] == acc@[j as int] || acc@.skip(j as int).len() == 0);
    }
    if j < acc.len() && acc[j].0 == off {
        let merged = acc[j].1.wrapping_add(x);
        acc.set(j, (off, merged));
        proof {
            assert(acc@ =~= old(acc)@.take(j as int) + (seq![(off, merged)] + old(acc)@.skip(
                j as int,
            ).drop_first()));
        }
    } else {
        acc.insert(j, (off, x));
        proof {
            if j < old(acc)@.len() {
                assert(acc@ =~= old(acc)@.take(j as int) + (seq![(off, x)] + old(acc)@.skip(
                    j as int,
                )));
            } else {
                assert(old(acc)@.skip(j as int).len() == 0);
                assert(acc@ =~= old(acc)@.take(j as int) + seq![(off, x)]);
            }
        }
    }
}

/// Normalize one instruction, as [`norm_op`] says.
fn optimize_op(op: &Op) -> (r: Op)
    ensures
        op_view(r) == norm_op(op_view(*op)),
    decreases op_view(*op),
{
    match op {
        Op::Add(i) => Op::Add(*i),
        Op::Mov(n) => Op::Mov(*n),
        Op::In => Op::In,
        Op::Out => Op::Out,
        Op::Loop(stream) => {
            let nb = optimize_ops(&stream.ops);
            let ns = OpStream { ops: nb };
            match ns.find_alternative() {
                Some(t) => t,
                None => Op::Loop(ns),
            }
        },
        Op::Transfer(d, targets) => Op::Transfer(*d, copy_targets(targets)),
    }
}

/// Optimize a sequence of instructions, as [`opt_s`] says.
fn optimize_ops(ops: &Vec<Op>) -> (r: Vec<Op>)
    ensures
        ops_view(r@) == opt_s(ops_view(ops@)),
    decreases ops_view(ops@),
{
    let mut r: Vec<Op> = Vec::new();
    let mut i: usize = 0;
    while i < ops.len()
        invariant
            i <= ops@.len(),
            ops_view(r@) == opt_s(ops_view(ops@.take(i as int))),
        decreases ops@.len() - i,
    {
        proof {
            lemma_ops_view_index(ops@);
            lemma_ops_view_index(ops@.take(i as int));
            lemma_ops_view_index(ops@.take(i as int + 1));
            assert(ops@.take(i as int + 1).drop_last() =~= ops@.take(i as int));
            assert(ops_view(ops@.take(i as int + 1)).drop_last() =~= ops_view(ops@.take(
                i as int,
            )));
            assert(ops_view(ops@.take(i as int + 1)).last() == op_view(ops@[i as int]));
            assert(decreases_to!(ops_view(ops@) => ops_view(ops@)[i as int]));
        }
        let nop = optimize_op(&ops[i]);
        fuse_push(&mut r, nop);
        i = i + 1;
    }
    proof {
        assert(ops@.take(ops@.len() as int) =~= ops@);
    }
    r
}

} // verus!
