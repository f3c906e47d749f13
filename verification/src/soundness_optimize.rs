//! The whole optimiser does not change what a program writes out. Each
//! round marks known zeros, which the round pays for with extra steps, so
//! the optimised program is given more steps: twice as many and one more
//! for each round.
use crate::bfir::Node;
use crate::execution::{pointer_on_tape, run, Machine, Outcome};
use crate::peephole::{
    all_passes, annotate_known_zero_spec, optimize_once_spec, optimize_spec, pass_seq, remove_pure_code_spec,
    remove_redundant_sets_spec, settle, sort_by_offset_spec, Pass, PassSet,
};
use crate::soundness::{
    law_combine_increments_sound, law_combine_ptr_increments_sound, law_combine_set_and_increments_sound, law_remove_pure_code_sound,
    law_zeroing_loops_sound, lemma_run_completed_steps, lemma_run_more_steps,
};
use crate::soundness_annotate::law_annotate_known_zero_sound;
use crate::soundness_clobber::law_remove_read_clobber_sound;
use crate::soundness_filters::{law_remove_dead_loops_sound, law_remove_redundant_sets_sound};
use crate::soundness_multiply::law_extract_multiply_sound;
use crate::soundness_sort::law_sort_by_offset_sound;
use vstd::prelude::*;

verus! {

/// What an optimised program owes to a run of the given program: where the given program
/// completed, it completes too, having written out the same; where the
/// given program stopped at a read, it stops at a read too, having written out
/// the same.
pub open spec fn result_same_outputs(new: (Outcome, Machine), old: (Outcome, Machine)) -> bool {
    match old.0 {
        Outcome::Completed(_) => new.0 is Completed && new.1.outputs == old.1.outputs,
        Outcome::ReachedRuntimeValue => new.0 == Outcome::ReachedRuntimeValue && new.1.outputs == old.1.outputs,
        _ => true,
    }
}

/// The steps that `rounds` rounds of optimisation may need for a run of
/// `steps` steps: each round doubles them and adds one.
pub open spec fn round_steps(steps: nat, rounds: nat) -> nat
    decreases rounds,
{
    if rounds == 0 {
        steps
    } else {
        round_steps(2 * steps + 1, (rounds - 1) as nat)
    }
}

proof fn lemma_round_steps_grow(steps: nat, rounds: nat)
    ensures
        round_steps(steps, rounds) >= steps,
    decreases rounds,
{
    if rounds > 0 {
        lemma_round_steps_grow((2 * steps + 1) as nat, (rounds - 1) as nat);
    }
}

/// One round of all the passes, on a tape whose current cell is zero,
/// writes out what the program writes out, given twice the steps and one
/// more.
proof fn lemma_round_sound(s: Seq<Node>, m: Machine, steps: u64, read: Option<i8>)
    requires
        pointer_on_tape(m),
        m.cells[m.ptr] == 0,
        steps <= u64::MAX / 2,
    ensures
        result_same_outputs(
            run(optimize_once_spec(s, all_passes()).0, 0, m, (2 * steps + 1) as u64, read),
            run(s, 0, m, steps, read),
        ),
{
    let t = (2 * steps + 1) as u64;
    let s1 = pass_seq(Pass::CombineIncrements, s);
    let s2 = pass_seq(Pass::CombinePtrIncrements, s1);
    let s3 = annotate_known_zero_spec(s2);
    let s4 = pass_seq(Pass::ExtractMultiply, s3);
    let s5 = pass_seq(Pass::ZeroingLoops, s4);
    let s6 = pass_seq(Pass::CombineSets, s5);
    let s7 = pass_seq(Pass::DeadLoops, s6);
    let s8 = remove_redundant_sets_spec(s7);
    let s9 = pass_seq(Pass::ReadClobber, s8);
    let s10 = remove_pure_code_spec(s9).0;
    let s11 = sort_by_offset_spec(s10);
    assert(optimize_once_spec(s, all_passes()).0 == s11);
    law_combine_increments_sound(s, m, steps, read);
    law_combine_ptr_increments_sound(s1, m, steps, read);
    law_annotate_known_zero_sound(s2, m, steps, read);
    law_extract_multiply_sound(s3, m, t, read);
    law_zeroing_loops_sound(s4, m, t, read);
    law_combine_set_and_increments_sound(s5, m, t, read);
    law_remove_dead_loops_sound(s6, m, t, read);
    law_remove_redundant_sets_sound(s7, m, t, read);
    law_remove_read_clobber_sound(s8, m, t, read);
    law_remove_pure_code_sound(s9, m, t, read);
    law_sort_by_offset_sound(s10, m, t, read);
}

/// More steps keep what a run of the given program is owed.
proof fn lemma_same_outputs_more_steps(t: Seq<Node>, m: Machine, given: u64, extra: u64, read: Option<i8>, old: (Outcome, Machine))
    requires
        given + extra <= u64::MAX,
        result_same_outputs(run(t, 0, m, given, read), old),
    ensures
        result_same_outputs(run(t, 0, m, (given + extra) as u64, read), old),
{
    if old.0 is Completed || old.0 is ReachedRuntimeValue {
        lemma_run_completed_steps(t, 0, m, given, read);
        lemma_run_more_steps(t, 0, m, given, extra, read);
    }
}

/// Further rounds, until one changes nothing or the fuel runs out, keep
/// what the program writes out.
proof fn lemma_settle_sound(prev: Seq<Node>, result: Seq<Node>, fuel: nat, m: Machine, steps: u64, read: Option<i8>)
    requires
        pointer_on_tape(m),
        m.cells[m.ptr] == 0,
        round_steps(steps as nat, fuel) <= u64::MAX,
    ensures
        result_same_outputs(
            run(settle(prev, result, all_passes(), fuel), 0, m, round_steps(steps as nat, fuel) as u64, read),
            run(result, 0, m, steps, read),
        ),
    decreases fuel,
{
    lemma_round_steps_grow(steps as nat, fuel);
    let old = run(result, 0, m, steps, read);
    if fuel == 0 || prev == result {
        let more = (round_steps(steps as nat, fuel) - steps) as u64;
        assert(result_same_outputs(run(result, 0, m, steps, read), old));
        lemma_same_outputs_more_steps(result, m, steps, more, read, old);
        assert((steps + more) as u64 == round_steps(steps as nat, fuel) as u64);
    } else {
        let next = optimize_once_spec(result, all_passes()).0;
        let t = (2 * steps + 1) as u64;
        lemma_round_steps_grow((2 * steps + 1) as nat, (fuel - 1) as nat);
        lemma_round_sound(result, m, steps, read);
        lemma_settle_sound(result, next, (fuel - 1) as nat, m, t, read);
        assert(round_steps(t as nat, (fuel - 1) as nat) == round_steps(steps as nat, fuel));
    }
}

/// Optimising a program does not change what it writes out, on a tape
/// whose current cell starts at zero: where the given program completes within `steps`
/// steps, the optimised program completes, given twice the steps and one
/// more for each of the rounds the optimiser may run, having written out
/// the same; where the given program stops at a read, so does the optimised
/// one, having written out the same.
pub proof fn law_optimize_sound(s: Seq<Node>, m: Machine, steps: u64, read: Option<i8>)
    requires
        pointer_on_tape(m),
        m.cells[m.ptr] == 0,
        round_steps(steps as nat, 41) <= u64::MAX,
    ensures
        result_same_outputs(
            run(optimize_spec(s, all_passes()), 0, m, round_steps(steps as nat, 41) as u64, read),
            run(s, 0, m, steps, read),
        ),
{
    lemma_round_steps_grow((2 * steps + 1) as nat, 40);
    let first = optimize_once_spec(s, all_passes()).0;
    let t = (2 * steps + 1) as u64;
    lemma_round_sound(s, m, steps, read);
    lemma_settle_sound(s, first, 40, m, t, read);
    assert(round_steps(t as nat, 40) == round_steps(steps as nat, 41));
}

} // verus!
