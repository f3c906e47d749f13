//! The optimiser of the flat IR never makes a program bigger, for the same
//! reason as the peephole optimiser: every set to zero that marking known
//! zeros adds follows a loop (or starts the program), and removing
//! redundant sets takes all such sets out again.
use crate::ir::Ins;
use crate::optimize::{
    drop_zero_increments, ir_annotate_known_zero_spec, ir_coalesce, ir_coalesce_from, ir_effect_end, ir_known_zero_node,
    ir_known_zero_prefix, ir_merge, ir_optimize_spec, ir_pass_each, ir_pass_node, ir_pass_seq, ir_remove_redundant_sets_spec,
    is_set_zero_ins, is_zeroing_body, IrPass, IrRule,
};
use vstd::prelude::*;

verus! {

/// The number of instructions, counting those in loop bodies.
pub open spec fn ins_size(x: Ins) -> nat
    decreases x, 0int,
{
    1 + match x {
        Ins::Loop(body) => inss_size(body),
        _ => 0,
    }
}

pub open spec fn inss_size(s: Seq<Ins>) -> nat
    decreases s, 1int,
{
    if s.len() == 0 {
        0
    } else {
        ins_size(s[0]) + inss_size(s.subrange(1, s.len() as int))
    }
}

/// The size of an instruction without the sets to zero, inside it, that
/// follow a loop.
pub open spec fn ins_lean_size(x: Ins) -> int
    decreases x, 0int,
{
    1 + match x {
        Ins::Loop(body) => inss_lean_size(false, body),
        _ => 0,
    }
}

/// The size of a sequence without the sets to zero that follow a loop;
/// `zero_before` says whether the cell is known to be zero before the first
/// instruction.
pub open spec fn inss_lean_size(zero_before: bool, s: Seq<Ins>) -> int
    decreases s, 1int,
{
    if s.len() == 0 {
        0
    } else {
        ins_lean_size(s[0]) - (if zero_before && is_set_zero_ins(s[0]) { 1int } else { 0int }) + inss_lean_size(
            s[0] is Loop,
            s.subrange(1, s.len() as int),
        )
    }
}

pub open spec fn ins_zero_after(zero_before: bool, a: Seq<Ins>) -> bool {
    if a.len() == 0 {
        zero_before
    } else {
        a.last() is Loop
    }
}

proof fn lemma_ins_lean_bounds(x: Ins)
    ensures
        1 <= ins_lean_size(x) <= ins_size(x),
    decreases x, 0int,
{
    if let Ins::Loop(body) = x {
        lemma_inss_lean_bounds(false, body);
    }
}

proof fn lemma_inss_lean_bounds(zero_before: bool, s: Seq<Ins>)
    ensures
        0 <= inss_lean_size(zero_before, s) <= inss_size(s),
    decreases s, 1int,
{
    if s.len() > 0 {
        lemma_ins_lean_bounds(s[0]);
        lemma_inss_lean_bounds(s[0] is Loop, s.subrange(1, s.len() as int));
    }
}

proof fn lemma_inss_lean_zero_before(s: Seq<Ins>)
    ensures
        inss_lean_size(true, s) <= inss_lean_size(false, s) <= inss_lean_size(true, s) + 1,
{
}

proof fn lemma_inss_concat(zero_before: bool, a: Seq<Ins>, b: Seq<Ins>)
    ensures
        inss_size(a + b) == inss_size(a) + inss_size(b),
        inss_lean_size(zero_before, a + b) == inss_lean_size(zero_before, a) + inss_lean_size(ins_zero_after(zero_before, a), b),
    decreases a.len(),
{
    if a.len() > 0 {
        let rest = a.subrange(1, a.len() as int);
        lemma_inss_concat(a[0] is Loop, rest, b);
        assert((a + b)[0] == a[0]);
        assert((a + b).subrange(1, (a + b).len() as int) =~= rest + b);
        if rest.len() > 0 {
            assert(rest.last() == a.last());
        }
    } else {
        assert(a + b =~= b);
    }
}

proof fn lemma_inss_push(zero_before: bool, a: Seq<Ins>, x: Ins)
    ensures
        inss_size(a.push(x)) == inss_size(a) + ins_size(x),
        inss_lean_size(zero_before, a.push(x)) == inss_lean_size(zero_before, a) + ins_lean_size(x) - (if ins_zero_after(
            zero_before,
            a,
        ) && is_set_zero_ins(x) { 1int } else { 0int }),
{
    lemma_inss_concat(zero_before, a, seq![x]);
    assert(a + seq![x] =~= a.push(x));
    let l = seq![x];
    assert(l[0] == x);
    assert(l.subrange(1, 1) =~= Seq::<Ins>::empty());
    assert(inss_size(Seq::<Ins>::empty()) == 0);
    assert(inss_lean_size(x is Loop, Seq::<Ins>::empty()) == 0);
}

/// `y` may stand for `x`, in the sense of `replaces_leanly` for the AST.
pub open spec fn ins_replaces_leanly(y: Ins, x: Ins) -> bool {
    &&& ins_size(y) <= ins_size(x)
    &&& ins_lean_size(y) + (if x is Loop && !(y is Loop) { 1int } else { 0int }) <= ins_lean_size(x)
    &&& ins_lean_size(y) - (if is_set_zero_ins(y) { 1int } else { 0int }) + (if x is Loop && !(y is Loop) { 1int } else { 0int })
        <= ins_lean_size(x) - (if is_set_zero_ins(x) { 1int } else { 0int })
}

proof fn lemma_ins_pointwise(zero_before: bool, t: Seq<Ins>, s: Seq<Ins>)
    requires
        t.len() == s.len(),
        forall|i: int| 0 <= i < s.len() ==> ins_replaces_leanly(#[trigger] t[i], s[i]),
    ensures
        inss_size(t) <= inss_size(s),
        inss_lean_size(zero_before, t) <= inss_lean_size(zero_before, s),
    decreases s.len(),
{
    if s.len() > 0 {
        let t1 = t.subrange(1, t.len() as int);
        let s1 = s.subrange(1, s.len() as int);
        assert forall|i: int| 0 <= i < s1.len() implies ins_replaces_leanly(#[trigger] t1[i], s1[i]) by {
            assert(t1[i] == t[i + 1] && s1[i] == s[i + 1]);
        }
        assert(ins_replaces_leanly(t[0], s[0]));
        lemma_ins_pointwise(t[0] is Loop, t1, s1);
        lemma_inss_lean_zero_before(s1);
    }
}

/// Merging neighbours never makes a sequence bigger, nor its lean size
/// bigger, except where a loop keeps the set to zero after it.
proof fn lemma_ir_coalesce_sizes(zero_before: bool, acc: Ins, rest: Seq<Ins>, rule: IrRule)
    requires
        rule != IrRule::LoopThenSetZero,
    ensures
        inss_size(ir_coalesce_from(acc, rest, rule)) <= inss_size(seq![acc] + rest),
        inss_lean_size(zero_before, ir_coalesce_from(acc, rest, rule)) <= inss_lean_size(zero_before, seq![acc] + rest),
    decreases rest.len(),
{
    let whole = seq![acc] + rest;
    assert(whole[0] == acc);
    assert(whole.subrange(1, whole.len() as int) =~= rest);
    if rest.len() == 0 {
        assert(ir_coalesce_from(acc, rest, rule) == seq![acc]);
        assert(whole =~= seq![acc]);
    } else {
        let next = rest[0];
        let tail = rest.subrange(1, rest.len() as int);
        assert(rest.drop_first() =~= tail);
        assert(rest[0] == next);
        assert(inss_size(rest) == ins_size(next) + inss_size(tail));
        assert(inss_lean_size(acc is Loop, rest) == ins_lean_size(next) - (if acc is Loop && is_set_zero_ins(next) { 1int } else { 0int })
            + inss_lean_size(next is Loop, tail));
        assert(inss_size(whole) == ins_size(acc) + inss_size(rest));
        assert(inss_lean_size(zero_before, whole) == ins_lean_size(acc) - (if zero_before && is_set_zero_ins(acc) { 1int } else { 0int })
            + inss_lean_size(acc is Loop, rest));
        match ir_merge(rule, acc, next) {
            Some(merged) => {
                lemma_ir_coalesce_sizes(zero_before, merged, tail, rule);
                let w2 = seq![merged] + tail;
                assert(w2[0] == merged);
                assert(w2.subrange(1, w2.len() as int) =~= tail);
                assert(ir_coalesce_from(acc, rest, rule) == ir_coalesce_from(merged, tail, rule));
                assert(inss_size(w2) == ins_size(merged) + inss_size(tail));
                assert(inss_lean_size(zero_before, w2) == ins_lean_size(merged) - (if zero_before && is_set_zero_ins(merged) { 1int } else { 0int })
                    + inss_lean_size(merged is Loop, tail));
                lemma_ins_lean_bounds(next);
                lemma_inss_lean_zero_before(tail);
            },
            None => {
                lemma_ir_coalesce_sizes(acc is Loop, next, tail, rule);
                let rest_out = ir_coalesce_from(next, tail, rule);
                let out = seq![acc] + rest_out;
                assert(ir_coalesce_from(acc, rest, rule) == out);
                assert(out[0] == acc);
                assert(out.subrange(1, out.len() as int) =~= rest_out);
                assert(seq![next] + tail =~= rest);
                assert(inss_size(out) == ins_size(acc) + inss_size(rest_out));
                assert(inss_lean_size(zero_before, out) == ins_lean_size(acc) - (if zero_before && is_set_zero_ins(acc) { 1int } else { 0int })
                    + inss_lean_size(acc is Loop, rest_out));
            },
        }
    }
}

proof fn lemma_ir_coalesce_seq_sizes(zero_before: bool, t: Seq<Ins>, rule: IrRule)
    requires
        rule != IrRule::LoopThenSetZero,
    ensures
        inss_size(ir_coalesce(t, rule)) <= inss_size(t),
        inss_lean_size(zero_before, ir_coalesce(t, rule)) <= inss_lean_size(zero_before, t),
{
    if t.len() > 0 {
        lemma_ir_coalesce_sizes(zero_before, t[0], t.drop_first(), rule);
        assert(seq![t[0]] + t.drop_first() =~= t);
    }
}

proof fn lemma_drop_zero_increments_size(s: Seq<Ins>, pointer: bool)
    ensures
        inss_size(drop_zero_increments(s, pointer)) <= inss_size(s),
    decreases s.len(),
{
    if s.len() > 0 {
        let init = s.drop_last();
        lemma_drop_zero_increments_size(init, pointer);
        lemma_inss_push(false, init, s.last());
        lemma_inss_push(false, drop_zero_increments(init, pointer), s.last());
        assert(init.push(s.last()) =~= s);
    }
}

/// Merging each set to zero into the loop before it leaves no more than
/// the lean size, where each instruction of `r` is no bigger than the lean
/// size of the one it stands for in `rs`.
proof fn lemma_ir_redundant_from(a: Ins, la: int, r: Seq<Ins>, rs: Seq<Ins>)
    requires
        r.len() == rs.len(),
        la >= ins_size(a),
        forall|i: int|
            0 <= i < r.len() ==> ins_size(#[trigger] r[i]) <= ins_lean_size(rs[i]) && (r[i] is Loop) == (rs[i] is Loop)
                && is_set_zero_ins(r[i]) == is_set_zero_ins(rs[i]),
    ensures
        inss_size(ir_coalesce_from(a, r, IrRule::LoopThenSetZero)) <= la + inss_lean_size(a is Loop, rs),
        ir_coalesce_from(a, r, IrRule::LoopThenSetZero).len() > 0,
        ir_coalesce_from(a, r, IrRule::LoopThenSetZero)[0] == a,
    decreases r.len(),
{
    let rule = IrRule::LoopThenSetZero;
    if r.len() == 0 {
        assert(ir_coalesce_from(a, r, rule) == seq![a]);
        assert(inss_size(seq![a]) == ins_size(a) + inss_size(seq![a].subrange(1, 1)));
        assert(seq![a].subrange(1, 1) =~= Seq::<Ins>::empty());
        assert(inss_size(Seq::<Ins>::empty()) == 0);
    } else {
        let next = r[0];
        let tail = r.subrange(1, r.len() as int);
        let stail = rs.subrange(1, rs.len() as int);
        assert(r.drop_first() =~= tail);
        assert forall|i: int|
            0 <= i < tail.len() implies ins_size(#[trigger] tail[i]) <= ins_lean_size(stail[i]) && (tail[i] is Loop) == (
            stail[i] is Loop) && is_set_zero_ins(tail[i]) == is_set_zero_ins(stail[i]) by {
            assert(tail[i] == r[i + 1] && stail[i] == rs[i + 1]);
        }
        assert(inss_lean_size(a is Loop, rs) == ins_lean_size(rs[0]) - (if a is Loop && is_set_zero_ins(rs[0]) { 1int } else { 0int })
            + inss_lean_size(rs[0] is Loop, stail));
        lemma_ins_lean_bounds(rs[0]);
        lemma_inss_lean_zero_before(stail);
        match ir_merge(rule, a, next) {
            Some(merged) => {
                assert(merged == a);
                lemma_ir_redundant_from(a, la, tail, stail);
                assert(ir_coalesce_from(a, r, rule) == ir_coalesce_from(a, tail, rule));
            },
            None => {
                lemma_ir_redundant_from(next, ins_lean_size(rs[0]), tail, stail);
                let rest_out = ir_coalesce_from(next, tail, rule);
                let out = seq![a] + rest_out;
                assert(ir_coalesce_from(a, r, rule) == out);
                assert(out[0] == a);
                assert(out.subrange(1, out.len() as int) =~= rest_out);
                assert(inss_size(out) == ins_size(a) + inss_size(rest_out));
            },
        }
    }
}

proof fn lemma_ir_redundant_node(x: Ins)
    ensures
        ins_size(ir_pass_node(IrPass::RedundantSets, x)) <= ins_lean_size(x),
        (ir_pass_node(IrPass::RedundantSets, x) is Loop) == (x is Loop),
        !(x is Loop) ==> ir_pass_node(IrPass::RedundantSets, x) == x,
    decreases x, 2int,
{
    if let Ins::Loop(body) = x {
        lemma_ir_redundant_seq(body);
    }
}

proof fn lemma_ir_redundant_seq(s: Seq<Ins>)
    ensures
        inss_size(ir_pass_seq(IrPass::RedundantSets, s)) <= inss_lean_size(false, s),
        s.len() > 0 && !(s[0] is Loop) ==> ir_pass_seq(IrPass::RedundantSets, s).len() > 0 && ir_pass_seq(IrPass::RedundantSets, s)[0] == s[0],
    decreases s, 1int,
{
    let t = ir_pass_each(IrPass::RedundantSets, s);
    if s.len() > 0 {
        let tail = t.drop_first();
        let stail = s.subrange(1, s.len() as int);
        assert forall|i: int|
            0 <= i < tail.len() implies ins_size(#[trigger] tail[i]) <= ins_lean_size(stail[i]) && (tail[i] is Loop) == (
            stail[i] is Loop) && is_set_zero_ins(tail[i]) == is_set_zero_ins(stail[i]) by {
            assert(tail[i] == t[i + 1] && stail[i] == s[i + 1]);
            lemma_ir_redundant_node(s[i + 1]);
        }
        lemma_ir_redundant_node(s[0]);
        lemma_ir_redundant_from(t[0], ins_lean_size(s[0]), tail, stail);
        assert(inss_lean_size(false, s) == ins_lean_size(s[0]) + inss_lean_size(s[0] is Loop, stail));
    }
}

/// Removing redundant sets leaves no more than the lean size of a program
/// that starts on a zero cell.
proof fn lemma_ir_remove_redundant_sets_size(d: Seq<Ins>)
    ensures
        inss_size(ir_remove_redundant_sets_spec(d)) <= inss_lean_size(true, d),
{
    let reduced = ir_pass_seq(IrPass::RedundantSets, d);
    lemma_ir_redundant_seq(d);
    if reduced.len() > 0 && is_set_zero_ins(reduced[0]) {
        assert(inss_size(reduced) == ins_size(reduced[0]) + inss_size(reduced.subrange(1, reduced.len() as int)));
        assert(reduced.drop_first() =~= reduced.subrange(1, reduced.len() as int));
    }
}

proof fn lemma_ir_lean_pass_node(p: IrPass, x: Ins)
    requires
        p == IrPass::SimplifyLoops || p == IrPass::CombineSets || p == IrPass::DeadLoops,
    ensures
        ins_replaces_leanly(ir_pass_node(p, x), x),
    decreases x, 2int,
{
    if let Ins::Loop(body) = x {
        if p == IrPass::SimplifyLoops && is_zeroing_body(body) {
            assert(inss_size(body) == ins_size(body[0]) + inss_size(body.subrange(1, 1)));
            assert(body.subrange(1, 1) =~= Seq::<Ins>::empty());
            assert(inss_size(Seq::<Ins>::empty()) == 0);
            assert(inss_lean_size(false, body) == ins_lean_size(body[0]) + inss_lean_size(false, body.subrange(1, 1)));
            assert(inss_lean_size(false, Seq::<Ins>::empty()) == 0);
        } else {
            lemma_ir_lean_pass_seq(p, false, body);
        }
    }
}

/// The passes between marking known zeros and removing redundant sets
/// never make a program bigger, nor its lean size bigger.
proof fn lemma_ir_lean_pass_seq(p: IrPass, zero_before: bool, s: Seq<Ins>)
    requires
        p == IrPass::SimplifyLoops || p == IrPass::CombineSets || p == IrPass::DeadLoops,
    ensures
        inss_size(ir_pass_seq(p, s)) <= inss_size(s),
        inss_lean_size(zero_before, ir_pass_seq(p, s)) <= inss_lean_size(zero_before, s),
    decreases s, 1int,
{
    let each = ir_pass_each(p, s);
    assert forall|i: int| 0 <= i < s.len() implies ins_replaces_leanly(#[trigger] each[i], s[i]) by {
        lemma_ir_lean_pass_node(p, s[i]);
    }
    lemma_ins_pointwise(zero_before, each, s);
    if p == IrPass::CombineSets {
        let c1 = ir_coalesce(each, IrRule::IncrementThenSet);
        let c2 = ir_coalesce(c1, IrRule::SetThenIncrement);
        lemma_ir_coalesce_seq_sizes(zero_before, each, IrRule::IncrementThenSet);
        lemma_ir_coalesce_seq_sizes(zero_before, c1, IrRule::SetThenIncrement);
        lemma_ir_coalesce_seq_sizes(zero_before, c2, IrRule::SetThenSet);
    } else if p == IrPass::DeadLoops {
        lemma_ir_coalesce_seq_sizes(zero_before, each, IrRule::DeadLoop);
    }
}

proof fn lemma_ir_size_pass_node(p: IrPass, x: Ins)
    requires
        p == IrPass::CombineIncrements || p == IrPass::CombinePtrIncrements || p == IrPass::CombineBeforeRead,
    ensures
        ins_size(ir_pass_node(p, x)) <= ins_size(x),
    decreases x, 2int,
{
    if let Ins::Loop(body) = x {
        lemma_ir_size_pass_seq(p, body);
    }
}

proof fn lemma_ir_size_pass_seq(p: IrPass, s: Seq<Ins>)
    requires
        p == IrPass::CombineIncrements || p == IrPass::CombinePtrIncrements || p == IrPass::CombineBeforeRead,
    ensures
        inss_size(ir_pass_seq(p, s)) <= inss_size(s),
    decreases s, 1int,
{
    let each = ir_pass_each(p, s);
    assert forall|i: int| 0 <= i < s.len() implies ins_size(#[trigger] each[i]) <= ins_size(s[i]) by {
        lemma_ir_size_pass_node(p, s[i]);
    }
    lemma_ir_size_pointwise(each, s);
    let rule = if p == IrPass::CombineIncrements {
        IrRule::Increments
    } else if p == IrPass::CombinePtrIncrements {
        IrRule::PtrIncrements
    } else {
        IrRule::BeforeRead
    };
    lemma_ir_coalesce_seq_sizes(false, each, rule);
    if p != IrPass::CombineBeforeRead {
        lemma_drop_zero_increments_size(ir_coalesce(each, rule), p == IrPass::CombinePtrIncrements);
    }
}

proof fn lemma_ir_size_pointwise(t: Seq<Ins>, s: Seq<Ins>)
    requires
        t.len() == s.len(),
        forall|i: int| 0 <= i < s.len() ==> ins_size(#[trigger] t[i]) <= ins_size(s[i]),
    ensures
        inss_size(t) <= inss_size(s),
    decreases s.len(),
{
    if s.len() > 0 {
        let t1 = t.subrange(1, t.len() as int);
        let s1 = s.subrange(1, s.len() as int);
        assert forall|i: int| 0 <= i < s1.len() implies ins_size(#[trigger] t1[i]) <= ins_size(s1[i]) by {
            assert(t1[i] == t[i + 1] && s1[i] == s[i + 1]);
        }
        assert(ins_size(t[0]) <= ins_size(s[0]));
        lemma_ir_size_pointwise(t1, s1);
    }
}

proof fn lemma_ir_known_zero_loop_lean(x: Ins)
    requires
        x is Loop,
    ensures
        ins_lean_size(ir_known_zero_node(x)) <= ins_size(x),
    decreases x, 0int, 0int,
{
    let body = x->Loop_0;
    lemma_ir_known_zero_prefix_lean(body, body.len() as int, false);
    assert(body.take(body.len() as int) =~= body);
}

proof fn lemma_ir_known_zero_prefix_lean(s: Seq<Ins>, n: int, zero_before: bool)
    requires
        0 <= n <= s.len(),
    ensures
        inss_lean_size(zero_before, ir_known_zero_prefix(s, n)) <= inss_size(s.take(n)),
    decreases s, 1int, n,
{
    if n == 0 {
        assert(s.take(0) =~= Seq::<Ins>::empty());
    } else {
        let x = s[n - 1];
        let before = ir_known_zero_prefix(s, n - 1);
        lemma_ir_known_zero_prefix_lean(s, n - 1, zero_before);
        lemma_inss_push(zero_before, s.take(n - 1), x);
        assert(s.take(n - 1).push(x) =~= s.take(n));
        if x is Loop {
            lemma_ir_known_zero_loop_lean(x);
            let y = ir_known_zero_node(x);
            let with_loop = before.push(y);
            lemma_inss_push(zero_before, before, y);
            lemma_inss_push(zero_before, with_loop, Ins::SetCell(0));
            assert(with_loop.last() == y);
        } else {
            lemma_inss_push(zero_before, before, x);
        }
    }
}

/// The flat-IR optimiser never makes a program bigger: the optimised
/// program has no more instructions, counting those in loop bodies, than
/// the given one.
pub proof fn law_ir_optimize_never_grows(s: Seq<Ins>)
    ensures
        inss_size(ir_optimize_spec(s)) <= inss_size(s),
{
    let c1 = ir_pass_seq(IrPass::CombineIncrements, s);
    let combined = ir_pass_seq(IrPass::CombinePtrIncrements, c1);
    let annotated = ir_annotate_known_zero_spec(combined);
    let a1 = ir_pass_seq(IrPass::SimplifyLoops, annotated);
    let a2 = ir_pass_seq(IrPass::CombineSets, a1);
    let a3 = ir_pass_seq(IrPass::DeadLoops, a2);
    let simplified = ir_pass_seq(IrPass::CombineSets, a3);
    let r1 = ir_remove_redundant_sets_spec(simplified);
    let reduced = ir_pass_seq(IrPass::CombineBeforeRead, r1);
    lemma_ir_size_pass_seq(IrPass::CombineIncrements, s);
    lemma_ir_size_pass_seq(IrPass::CombinePtrIncrements, c1);
    // The marks: one at the start, on a zero cell, and one after each loop.
    let inner = ir_known_zero_prefix(combined, combined.len() as int);
    lemma_ir_known_zero_prefix_lean(combined, combined.len() as int, false);
    assert(combined.take(combined.len() as int) =~= combined);
    assert(annotated[0] == Ins::SetCell(0));
    assert(annotated.subrange(1, annotated.len() as int) =~= inner);
    assert(inss_lean_size(true, annotated) == ins_lean_size(Ins::SetCell(0)) - 1 + inss_lean_size(false, inner));
    lemma_ir_lean_pass_seq(IrPass::SimplifyLoops, true, annotated);
    lemma_ir_lean_pass_seq(IrPass::CombineSets, true, a1);
    lemma_ir_lean_pass_seq(IrPass::DeadLoops, true, a2);
    lemma_ir_lean_pass_seq(IrPass::CombineSets, true, a3);
    lemma_ir_remove_redundant_sets_size(simplified);
    lemma_ir_size_pass_seq(IrPass::CombineBeforeRead, r1);
    lemma_inss_concat(false, reduced.take(ir_effect_end(reduced, reduced.len() as int)), reduced.skip(
        ir_effect_end(reduced, reduced.len() as int),
    ));
    lemma_ir_effect_end_bounds(reduced, reduced.len() as int);
    assert(reduced.take(ir_effect_end(reduced, reduced.len() as int)) + reduced.skip(ir_effect_end(reduced, reduced.len() as int)) =~= reduced);
}

proof fn lemma_ir_effect_end_bounds(s: Seq<Ins>, n: int)
    requires
        0 <= n,
    ensures
        0 <= ir_effect_end(s, n) <= n,
    decreases n,
{
    if n > 0 {
        lemma_ir_effect_end_bounds(s, n - 1);
    }
}

} // verus!
