//! What the optimiser of the flat IR promises of every program, stated over
//! its specifications.
use crate::ir::Ins;
use crate::optimize::{
    drop_zero_increments, ir_annotate_known_zero_spec, ir_coalesce, ir_coalesce_from, ir_effect_end, ir_has_effect,
    ir_known_zero_prefix, ir_merge, ir_optimize_spec, ir_pass_each, ir_pass_node, ir_pass_seq,
    ir_remove_redundant_sets_spec, is_set_zero_ins, IrPass, IrRule,
};
use vstd::prelude::*;

verus! {

/// No reads, writes or loops.
pub open spec fn ir_is_pure(s: Seq<Ins>) -> bool {
    forall|i: int| 0 <= i < s.len() ==> !ir_has_effect(#[trigger] s[i])
}

proof fn lemma_ir_pass_each_without_loops(p: IrPass, s: Seq<Ins>)
    requires
        forall|i: int| 0 <= i < s.len() ==> !(#[trigger] s[i] is Loop),
    ensures
        ir_pass_each(p, s) == s,
{
    assert(ir_pass_each(p, s) =~= s);
}

proof fn lemma_ir_coalesce_pair(x: Ins, y: Ins, rule: IrRule)
    ensures
        ir_coalesce(seq![x, y], rule) == match ir_merge(rule, x, y) {
            Some(m) => seq![m],
            None => seq![x, y],
        },
{
    let s = seq![x, y];
    assert(s.drop_first() =~= seq![y]);
    assert(seq![y].drop_first() =~= Seq::<Ins>::empty());
    match ir_merge(rule, x, y) {
        Some(m) => {
            assert(ir_coalesce_from(m, Seq::<Ins>::empty(), rule) == seq![m]);
        },
        None => {
            assert(ir_coalesce_from(y, Seq::<Ins>::empty(), rule) == seq![y]);
            assert(seq![x] + seq![y] =~= seq![x, y]);
        },
    }
}

proof fn lemma_ir_coalesce_single(x: Ins, rule: IrRule)
    ensures
        ir_coalesce(seq![x], rule) == seq![x],
{
    assert(seq![x].drop_first() =~= Seq::<Ins>::empty());
}

/// A set followed by an increment becomes one set of their sum.
pub proof fn law_ir_set_then_increment_combine(set_amount: i32, increment_amount: i32)
    ensures
        ir_pass_seq(IrPass::CombineSets, seq![Ins::SetCell(set_amount), Ins::Increment(increment_amount)])
            == seq![Ins::SetCell(vstd::wrapping::i32_specs::wrapping_add(set_amount, increment_amount))],
{
    let x = Ins::SetCell(set_amount);
    let y = Ins::Increment(increment_amount);
    lemma_ir_pass_each_without_loops(IrPass::CombineSets, seq![x, y]);
    lemma_ir_coalesce_pair(x, y, IrRule::IncrementThenSet);
    lemma_ir_coalesce_pair(x, y, IrRule::SetThenIncrement);
    lemma_ir_coalesce_single(Ins::SetCell(vstd::wrapping::i32_specs::wrapping_add(set_amount, increment_amount)), IrRule::SetThenSet);
}

/// Two sets are the second set.
pub proof fn law_ir_set_then_set_combine(amount_before: i32, amount_after: i32)
    ensures
        ir_pass_seq(IrPass::CombineSets, seq![Ins::SetCell(amount_before), Ins::SetCell(amount_after)])
            == seq![Ins::SetCell(amount_after)],
{
    let x = Ins::SetCell(amount_before);
    let y = Ins::SetCell(amount_after);
    lemma_ir_pass_each_without_loops(IrPass::CombineSets, seq![x, y]);
    lemma_ir_coalesce_pair(x, y, IrRule::IncrementThenSet);
    lemma_ir_coalesce_pair(x, y, IrRule::SetThenIncrement);
    lemma_ir_coalesce_pair(x, y, IrRule::SetThenSet);
}

/// Annotation starts every program with a set to zero.
pub proof fn law_ir_annotate_known_zero_starts_with_set_zero(s: Seq<Ins>)
    ensures
        ir_annotate_known_zero_spec(s).len() > 0,
        ir_annotate_known_zero_spec(s)[0] == Ins::SetCell(0),
{
}

proof fn lemma_ir_coalesce_from_pure(acc: Ins, rest: Seq<Ins>, rule: IrRule)
    requires
        !ir_has_effect(acc),
        ir_is_pure(rest),
    ensures
        ir_is_pure(ir_coalesce_from(acc, rest, rule)),
    decreases rest.len(),
{
    if rest.len() > 0 {
        assert(!ir_has_effect(rest[0]));
        assert(ir_is_pure(rest.drop_first())) by {
            assert forall|i: int| 0 <= i < rest.drop_first().len() implies !ir_has_effect(#[trigger] rest.drop_first()[i]) by {
                assert(rest.drop_first()[i] == rest[i + 1]);
            }
        }
        match ir_merge(rule, acc, rest[0]) {
            Some(merged) => {
                lemma_ir_coalesce_from_pure(merged, rest.drop_first(), rule);
            },
            None => {
                lemma_ir_coalesce_from_pure(rest[0], rest.drop_first(), rule);
                let tail = ir_coalesce_from(rest[0], rest.drop_first(), rule);
                assert forall|i: int| 0 <= i < (seq![acc] + tail).len() implies !ir_has_effect(#[trigger] (seq![acc] + tail)[i]) by {
                    if i > 0 {
                        assert((seq![acc] + tail)[i] == tail[i - 1]);
                    }
                }
            },
        }
    }
}

proof fn lemma_ir_coalesce_pure(s: Seq<Ins>, rule: IrRule)
    requires
        ir_is_pure(s),
    ensures
        ir_is_pure(ir_coalesce(s, rule)),
{
    if s.len() > 0 {
        assert(!ir_has_effect(s[0]));
        assert(ir_is_pure(s.drop_first())) by {
            assert forall|i: int| 0 <= i < s.drop_first().len() implies !ir_has_effect(#[trigger] s.drop_first()[i]) by {
                assert(s.drop_first()[i] == s[i + 1]);
            }
        }
        lemma_ir_coalesce_from_pure(s[0], s.drop_first(), rule);
    }
}

proof fn lemma_drop_zero_increments_pure(s: Seq<Ins>, pointer: bool)
    requires
        ir_is_pure(s),
    ensures
        ir_is_pure(drop_zero_increments(s, pointer)),
    decreases s.len(),
{
    if s.len() > 0 {
        assert(ir_is_pure(s.drop_last())) by {
            assert forall|i: int| 0 <= i < s.drop_last().len() implies !ir_has_effect(#[trigger] s.drop_last()[i]) by {
                assert(s.drop_last()[i] == s[i]);
            }
        }
        lemma_drop_zero_increments_pure(s.drop_last(), pointer);
        let before = drop_zero_increments(s.drop_last(), pointer);
        assert(!ir_has_effect(s[s.len() - 1]));
        assert forall|i: int| 0 <= i < before.push(s.last()).len() implies !ir_has_effect(#[trigger] before.push(s.last())[i]) by {
            if i < before.len() {
                assert(before.push(s.last())[i] == before[i]);
            }
        }
    }
}

proof fn lemma_ir_pass_seq_pure(p: IrPass, s: Seq<Ins>)
    requires
        ir_is_pure(s),
    ensures
        ir_is_pure(ir_pass_seq(p, s)),
{
    assert forall|i: int| 0 <= i < s.len() implies !(#[trigger] s[i] is Loop) by {
        assert(!ir_has_effect(s[i]));
    }
    lemma_ir_pass_each_without_loops(p, s);
    match p {
        IrPass::CombineIncrements => {
            lemma_ir_coalesce_pure(s, IrRule::Increments);
            lemma_drop_zero_increments_pure(ir_coalesce(s, IrRule::Increments), false);
        },
        IrPass::CombinePtrIncrements => {
            lemma_ir_coalesce_pure(s, IrRule::PtrIncrements);
            lemma_drop_zero_increments_pure(ir_coalesce(s, IrRule::PtrIncrements), true);
        },
        IrPass::CombineBeforeRead => {
            lemma_ir_coalesce_pure(s, IrRule::BeforeRead);
        },
        IrPass::SimplifyLoops => {},
        IrPass::DeadLoops => {
            lemma_ir_coalesce_pure(s, IrRule::DeadLoop);
        },
        IrPass::CombineSets => {
            lemma_ir_coalesce_pure(s, IrRule::IncrementThenSet);
            lemma_ir_coalesce_pure(ir_coalesce(s, IrRule::IncrementThenSet), IrRule::SetThenIncrement);
            lemma_ir_coalesce_pure(
                ir_coalesce(ir_coalesce(s, IrRule::IncrementThenSet), IrRule::SetThenIncrement),
                IrRule::SetThenSet,
            );
        },
        IrPass::RedundantSets => {
            lemma_ir_coalesce_pure(s, IrRule::LoopThenSetZero);
        },
    }
}

proof fn lemma_ir_known_zero_without_loops(s: Seq<Ins>, n: int)
    requires
        0 <= n <= s.len(),
        ir_is_pure(s),
    ensures
        ir_known_zero_prefix(s, n) == s.take(n),
    decreases n,
{
    if n > 0 {
        lemma_ir_known_zero_without_loops(s, n - 1);
        assert(!ir_has_effect(s[n - 1]));
        assert(s.take(n) =~= s.take(n - 1).push(s[n - 1]));
    } else {
        assert(s.take(0) =~= Seq::<Ins>::empty());
    }
}

proof fn lemma_ir_effect_end_pure(s: Seq<Ins>, n: int)
    requires
        ir_is_pure(s),
        n <= s.len(),
    ensures
        ir_effect_end(s, n) == 0,
    decreases n,
{
    if n > 0 {
        assert(!ir_has_effect(s[n - 1]));
        lemma_ir_effect_end_pure(s, n - 1);
    }
}

/// A program with no reads, writes or loops has no effect that can be
/// seen: the optimiser removes all of it.
pub proof fn law_ir_optimize_removes_pure_program(s: Seq<Ins>)
    requires
        ir_is_pure(s),
    ensures
        ir_optimize_spec(s) == Seq::<Ins>::empty(),
{
    let combined1 = ir_pass_seq(IrPass::CombineIncrements, s);
    lemma_ir_pass_seq_pure(IrPass::CombineIncrements, s);
    let combined = ir_pass_seq(IrPass::CombinePtrIncrements, combined1);
    lemma_ir_pass_seq_pure(IrPass::CombinePtrIncrements, combined1);
    let annotated = ir_annotate_known_zero_spec(combined);
    lemma_ir_known_zero_without_loops(combined, combined.len() as int);
    assert(combined.take(combined.len() as int) =~= combined);
    assert(ir_is_pure(annotated)) by {
        assert forall|i: int| 0 <= i < annotated.len() implies !ir_has_effect(#[trigger] annotated[i]) by {
            if i > 0 {
                assert(annotated[i] == combined[i - 1]);
            }
        }
    }
    let a1 = ir_pass_seq(IrPass::SimplifyLoops, annotated);
    lemma_ir_pass_seq_pure(IrPass::SimplifyLoops, annotated);
    let a2 = ir_pass_seq(IrPass::CombineSets, a1);
    lemma_ir_pass_seq_pure(IrPass::CombineSets, a1);
    let a3 = ir_pass_seq(IrPass::DeadLoops, a2);
    lemma_ir_pass_seq_pure(IrPass::DeadLoops, a2);
    let simplified = ir_pass_seq(IrPass::CombineSets, a3);
    lemma_ir_pass_seq_pure(IrPass::CombineSets, a3);
    let r = ir_pass_seq(IrPass::RedundantSets, simplified);
    lemma_ir_pass_seq_pure(IrPass::RedundantSets, simplified);
    let stripped = ir_remove_redundant_sets_spec(simplified);
    assert(ir_is_pure(stripped)) by {
        if r.len() > 0 && is_set_zero_ins(r[0]) {
            assert forall|i: int| 0 <= i < r.drop_first().len() implies !ir_has_effect(#[trigger] r.drop_first()[i]) by {
                assert(r.drop_first()[i] == r[i + 1]);
            }
        }
    }
    let reduced = ir_pass_seq(IrPass::CombineBeforeRead, stripped);
    lemma_ir_pass_seq_pure(IrPass::CombineBeforeRead, stripped);
    lemma_ir_effect_end_pure(reduced, reduced.len() as int);
    assert(reduced.take(0) =~= Seq::<Ins>::empty());
}

} // verus!
