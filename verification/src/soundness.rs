//! Optimisations do not change what a program does: running the optimised
//! program gives the outputs that running the given program gives.
use crate::bfir::{Node, Position};
use crate::execution::{
    multiply_cells, multiply_targets_on_tape, on_tape, pointer_on_tape, run, with_cells, with_output, with_ptr, with_start, Machine,
    Outcome,
};
use crate::peephole::{
    merge_set_rules, merge_sets, set_push, increment_push, merge_increments, coalesce, coalesce_from, effect_end, has_effect, is_zeroing_body, keep_nodes, merge_spec, not_zero_increment,
    not_zero_ptr_increment, pass_each, pass_node, pass_seq, pass_top, remove_pure_code_spec, MergeRule, Pass,
};
use vstd::prelude::*;

verus! {

/// A run that completes has used no more steps than it was given, and has
/// at least one left.
pub proof fn lemma_run_completed_steps(s: Seq<Node>, j: nat, m: Machine, steps: u64, read: Option<i8>)
    ensures
        run(s, j, m, steps, read).0 matches Outcome::Completed(k) ==> 0 < k <= steps,
    decreases steps, s,
{
    if j < s.len() && steps > 0 {
        let next_steps = (steps - 1) as u64;
        match s[j as int] {
            Node::Increment { amount, offset, .. } => {
                let target = m.ptr + offset;
                if on_tape(m, target) {
                    let cells = m.cells.update(target, vstd::wrapping::i8_specs::wrapping_add(m.cells[target], amount));
                    lemma_run_completed_steps(s, j + 1, with_cells(m, cells), next_steps, read);
                }
            },
            Node::SetCell { amount, offset, .. } => {
                let target = m.ptr + offset;
                if on_tape(m, target) {
                    lemma_run_completed_steps(s, j + 1, with_cells(m, m.cells.update(target, amount)), next_steps, read);
                }
            },
            Node::PointerIncrement { amount, .. } => {
                let target = m.ptr + amount;
                if on_tape(m, target) {
                    lemma_run_completed_steps(s, j + 1, with_ptr(m, target), next_steps, read);
                }
            },
            Node::MultiplyMove { changes, .. } => {
                if m.cells[m.ptr] == 0 {
                    lemma_run_completed_steps(s, j + 1, m, next_steps, read);
                } else if multiply_targets_on_tape(changes, m) {
                    lemma_run_completed_steps(s, j + 1, with_cells(m, multiply_cells(changes, m)), next_steps, read);
                }
            },
            Node::Write { .. } => {
                lemma_run_completed_steps(s, j + 1, with_output(m, m.cells[m.ptr]), next_steps, read);
            },
            Node::Read { .. } => {
                if let Some(value) = read {
                    lemma_run_completed_steps(s, j + 1, with_cells(m, m.cells.update(m.ptr, value)), next_steps, read);
                }
            },
            Node::Loop { body, .. } => {
                if m.cells[m.ptr] == 0 {
                    lemma_run_completed_steps(s, j + 1, m, next_steps, read);
                } else {
                    let (outcome, after) = run(body, 0, m, steps, read);
                    lemma_run_completed_steps(body, 0, m, steps, read);
                    if let Outcome::Completed(remaining) = outcome {
                        if 0 < remaining <= steps {
                            lemma_run_completed_steps(s, j, after, (remaining - 1) as u64, read);
                        }
                    }
                }
            },
        }
    }
}

/// What more steps change: nothing, for a run that finished without
/// running out of them, but the steps left over.
pub proof fn lemma_run_more_steps(s: Seq<Node>, j: nat, m: Machine, steps: u64, extra: u64, read: Option<i8>)
    requires
        steps + extra <= u64::MAX,
        !(run(s, j, m, steps, read).0 is OutOfSteps),
    ensures
        run(s, j, m, (steps + extra) as u64, read) == (match run(s, j, m, steps, read).0 {
            Outcome::Completed(k) => (Outcome::Completed((k + extra) as u64), run(s, j, m, steps, read).1),
            _ => run(s, j, m, steps, read),
        }),
    decreases steps, s,
{
    lemma_run_completed_steps(s, j, m, steps, read);
    let more = (steps + extra) as u64;
    if j < s.len() && steps > 0 {
        let next_steps = (steps - 1) as u64;
        assert((more - 1) as u64 == (next_steps + extra) as u64);
        match s[j as int] {
            Node::Increment { amount, offset, .. } => {
                let target = m.ptr + offset;
                if on_tape(m, target) {
                    let cells = m.cells.update(target, vstd::wrapping::i8_specs::wrapping_add(m.cells[target], amount));
                    lemma_run_more_steps(s, j + 1, with_cells(m, cells), next_steps, extra, read);
                }
            },
            Node::SetCell { amount, offset, .. } => {
                let target = m.ptr + offset;
                if on_tape(m, target) {
                    lemma_run_more_steps(s, j + 1, with_cells(m, m.cells.update(target, amount)), next_steps, extra, read);
                }
            },
            Node::PointerIncrement { amount, .. } => {
                let target = m.ptr + amount;
                if on_tape(m, target) {
                    lemma_run_more_steps(s, j + 1, with_ptr(m, target), next_steps, extra, read);
                }
            },
            Node::MultiplyMove { changes, .. } => {
                if m.cells[m.ptr] == 0 {
                    lemma_run_more_steps(s, j + 1, m, next_steps, extra, read);
                } else if multiply_targets_on_tape(changes, m) {
                    lemma_run_more_steps(s, j + 1, with_cells(m, multiply_cells(changes, m)), next_steps, extra, read);
                }
            },
            Node::Write { .. } => {
                lemma_run_more_steps(s, j + 1, with_output(m, m.cells[m.ptr]), next_steps, extra, read);
            },
            Node::Read { .. } => {
                if let Some(value) = read {
                    lemma_run_more_steps(s, j + 1, with_cells(m, m.cells.update(m.ptr, value)), next_steps, extra, read);
                }
            },
            Node::Loop { body, .. } => {
                if m.cells[m.ptr] == 0 {
                    lemma_run_more_steps(s, j + 1, m, next_steps, extra, read);
                } else {
                    let (outcome, after) = run(body, 0, m, steps, read);
                    lemma_run_completed_steps(body, 0, m, steps, read);
                    if !(outcome is OutOfSteps) {
                        lemma_run_more_steps(body, 0, m, steps, extra, read);
                    }
                    if let Outcome::Completed(remaining) = outcome {
                        lemma_run_more_steps(s, j, after, (remaining - 1) as u64, extra, read);
                        assert(((remaining + extra) as u64 - 1) as u64 == ((remaining - 1) as u64 + extra) as u64);
                    }
                }
            },
        }
    }
}

/// A run keeps the pointer on the tape, and the tape as long as it was.
pub proof fn lemma_run_keeps_pointer(s: Seq<Node>, j: nat, m: Machine, steps: u64, read: Option<i8>)
    requires
        pointer_on_tape(m),
    ensures
        pointer_on_tape(run(s, j, m, steps, read).1),
        run(s, j, m, steps, read).1.cells.len() == m.cells.len(),
    decreases steps, s,
{
    if j < s.len() && steps > 0 {
        let next_steps = (steps - 1) as u64;
        match s[j as int] {
            Node::Increment { amount, offset, .. } => {
                let target = m.ptr + offset;
                if on_tape(m, target) {
                    let cells = m.cells.update(target, vstd::wrapping::i8_specs::wrapping_add(m.cells[target], amount));
                    lemma_run_keeps_pointer(s, j + 1, with_cells(m, cells), next_steps, read);
                }
            },
            Node::SetCell { amount, offset, .. } => {
                let target = m.ptr + offset;
                if on_tape(m, target) {
                    lemma_run_keeps_pointer(s, j + 1, with_cells(m, m.cells.update(target, amount)), next_steps, read);
                }
            },
            Node::PointerIncrement { amount, .. } => {
                let target = m.ptr + amount;
                if on_tape(m, target) {
                    lemma_run_keeps_pointer(s, j + 1, with_ptr(m, target), next_steps, read);
                }
            },
            Node::MultiplyMove { changes, .. } => {
                if m.cells[m.ptr] == 0 {
                    lemma_run_keeps_pointer(s, j + 1, m, next_steps, read);
                } else if multiply_targets_on_tape(changes, m) {
                    lemma_run_keeps_pointer(s, j + 1, with_cells(m, multiply_cells(changes, m)), next_steps, read);
                }
            },
            Node::Write { .. } => {
                lemma_run_keeps_pointer(s, j + 1, with_output(m, m.cells[m.ptr]), next_steps, read);
            },
            Node::Read { .. } => {
                if let Some(value) = read {
                    lemma_run_keeps_pointer(s, j + 1, with_cells(m, m.cells.update(m.ptr, value)), next_steps, read);
                }
            },
            Node::Loop { body, .. } => {
                if m.cells[m.ptr] == 0 {
                    lemma_run_keeps_pointer(s, j + 1, m, next_steps, read);
                } else {
                    let (outcome, after) = run(body, 0, m, steps, read);
                    lemma_run_keeps_pointer(body, 0, m, steps, read);
                    if let Outcome::Completed(remaining) = outcome {
                        if 0 < remaining <= steps {
                            lemma_run_keeps_pointer(s, j, after, (remaining - 1) as u64, read);
                        }
                    }
                }
            },
        }
    }
}

/// Running the second half of `a + b` is running `b`.
pub proof fn lemma_run_shift(a: Seq<Node>, b: Seq<Node>, j: nat, m: Machine, steps: u64, read: Option<i8>)
    requires
        j <= b.len(),
    ensures
        run(a + b, (a.len() + j) as nat, m, steps, read) == run(b, j, m, steps, read),
    decreases steps,
{
    let ab = a + b;
    if j < b.len() {
        assert(ab[(a.len() + j) as int] == b[j as int]);
    }
    if j < b.len() && steps > 0 {
        let next_steps = (steps - 1) as u64;
        match b[j as int] {
            Node::Increment { amount, offset, .. } => {
                let target = m.ptr + offset;
                if on_tape(m, target) {
                    let cells = m.cells.update(target, vstd::wrapping::i8_specs::wrapping_add(m.cells[target], amount));
                    lemma_run_shift(a, b, j + 1, with_cells(m, cells), next_steps, read);
                }
            },
            Node::SetCell { amount, offset, .. } => {
                let target = m.ptr + offset;
                if on_tape(m, target) {
                    lemma_run_shift(a, b, j + 1, with_cells(m, m.cells.update(target, amount)), next_steps, read);
                }
            },
            Node::PointerIncrement { amount, .. } => {
                let target = m.ptr + amount;
                if on_tape(m, target) {
                    lemma_run_shift(a, b, j + 1, with_ptr(m, target), next_steps, read);
                }
            },
            Node::MultiplyMove { changes, .. } => {
                if m.cells[m.ptr] == 0 {
                    lemma_run_shift(a, b, j + 1, m, next_steps, read);
                } else if multiply_targets_on_tape(changes, m) {
                    lemma_run_shift(a, b, j + 1, with_cells(m, multiply_cells(changes, m)), next_steps, read);
                }
            },
            Node::Write { .. } => {
                lemma_run_shift(a, b, j + 1, with_output(m, m.cells[m.ptr]), next_steps, read);
            },
            Node::Read { .. } => {
                if let Some(value) = read {
                    lemma_run_shift(a, b, j + 1, with_cells(m, m.cells.update(m.ptr, value)), next_steps, read);
                }
            },
            Node::Loop { body, .. } => {
                if m.cells[m.ptr] == 0 {
                    lemma_run_shift(a, b, j + 1, m, next_steps, read);
                } else {
                    let (outcome, after) = run(body, 0, m, steps, read);
                    if let Outcome::Completed(remaining) = outcome {
                        if 0 < remaining <= steps {
                            lemma_run_shift(a, b, j, after, (remaining - 1) as u64, read);
                        }
                    }
                }
            },
        }
    }
}

/// Running `a + b` is running `a`, and then, if `a` completed, running `b`
/// with the steps that are left.
pub proof fn lemma_run_concat(a: Seq<Node>, b: Seq<Node>, i: nat, m: Machine, steps: u64, read: Option<i8>)
    requires
        i <= a.len(),
    ensures
        match run(a, i, m, steps, read) {
            (Outcome::Completed(k), m1) => run(a + b, i, m, steps, read) == run(b, 0, m1, k, read),
            (Outcome::OutOfSteps, _) => run(a + b, i, m, steps, read).0 == Outcome::OutOfSteps,
            (o, m1) => run(a + b, i, m, steps, read) == (o, m1),
        },
    decreases steps,
{
    let ab = a + b;
    if i < a.len() {
        assert(ab[i as int] == a[i as int]);
    }
    if i >= a.len() {
        if steps > 0 {
            lemma_run_shift(a, b, 0, m, steps, read);
            assert(run(a, i, m, steps, read) == (Outcome::Completed(steps), m));
            assert(run(a + b, i, m, steps, read) == run(b, 0, m, steps, read));
        }
    } else if steps > 0 {
        let next_steps = (steps - 1) as u64;
        match a[i as int] {
            Node::Increment { amount, offset, .. } => {
                let target = m.ptr + offset;
                if on_tape(m, target) {
                    let cells = m.cells.update(target, vstd::wrapping::i8_specs::wrapping_add(m.cells[target], amount));
                    lemma_run_concat(a, b, i + 1, with_cells(m, cells), next_steps, read);
                }
            },
            Node::SetCell { amount, offset, .. } => {
                let target = m.ptr + offset;
                if on_tape(m, target) {
                    lemma_run_concat(a, b, i + 1, with_cells(m, m.cells.update(target, amount)), next_steps, read);
                }
            },
            Node::PointerIncrement { amount, .. } => {
                let target = m.ptr + amount;
                if on_tape(m, target) {
                    lemma_run_concat(a, b, i + 1, with_ptr(m, target), next_steps, read);
                }
            },
            Node::MultiplyMove { changes, .. } => {
                if m.cells[m.ptr] == 0 {
                    lemma_run_concat(a, b, i + 1, m, next_steps, read);
                } else if multiply_targets_on_tape(changes, m) {
                    lemma_run_concat(a, b, i + 1, with_cells(m, multiply_cells(changes, m)), next_steps, read);
                }
            },
            Node::Write { .. } => {
                lemma_run_concat(a, b, i + 1, with_output(m, m.cells[m.ptr]), next_steps, read);
            },
            Node::Read { .. } => {
                if let Some(value) = read {
                    lemma_run_concat(a, b, i + 1, with_cells(m, m.cells.update(m.ptr, value)), next_steps, read);
                }
            },
            Node::Loop { body, .. } => {
                if m.cells[m.ptr] == 0 {
                    lemma_run_concat(a, b, i + 1, m, next_steps, read);
                } else {
                    let (outcome, after) = run(body, 0, m, steps, read);
                    lemma_run_completed_steps(body, 0, m, steps, read);
                    if let Outcome::Completed(remaining) = outcome {
                        if 0 < remaining <= steps {
                            lemma_run_concat(a, b, i, after, (remaining - 1) as u64, read);
                        }
                    }
                }
            },
        }
    }
}

/// Nodes without reads, writes or loops write nothing out and never wait
/// for input.
pub proof fn lemma_run_without_effects(s: Seq<Node>, j: nat, m: Machine, steps: u64, read: Option<i8>)
    requires
        forall|i: int| 0 <= i < s.len() ==> !has_effect(#[trigger] s[i]),
    ensures
        run(s, j, m, steps, read).1.outputs == m.outputs,
        run(s, j, m, steps, read).0 != Outcome::ReachedRuntimeValue,
    decreases steps,
{
    if j < s.len() && steps > 0 {
        let next_steps = (steps - 1) as u64;
        assert(!has_effect(s[j as int]));
        match s[j as int] {
            Node::Increment { amount, offset, .. } => {
                let target = m.ptr + offset;
                if on_tape(m, target) {
                    let cells = m.cells.update(target, vstd::wrapping::i8_specs::wrapping_add(m.cells[target], amount));
                    lemma_run_without_effects(s, j + 1, with_cells(m, cells), next_steps, read);
                }
            },
            Node::SetCell { amount, offset, .. } => {
                let target = m.ptr + offset;
                if on_tape(m, target) {
                    lemma_run_without_effects(s, j + 1, with_cells(m, m.cells.update(target, amount)), next_steps, read);
                }
            },
            Node::PointerIncrement { amount, .. } => {
                let target = m.ptr + amount;
                if on_tape(m, target) {
                    lemma_run_without_effects(s, j + 1, with_ptr(m, target), next_steps, read);
                }
            },
            Node::MultiplyMove { changes, .. } => {
                if m.cells[m.ptr] == 0 {
                    lemma_run_without_effects(s, j + 1, m, next_steps, read);
                } else if multiply_targets_on_tape(changes, m) {
                    lemma_run_without_effects(s, j + 1, with_cells(m, multiply_cells(changes, m)), next_steps, read);
                }
            },
            _ => {},
        }
    }
}

/// Removing the pure code at the end of a program does not change what it
/// does: where the program completes, the shorter one completes within the
/// same steps, with the same outputs; where it stops at a read, the shorter
/// one stops at the same read, in the same state.
pub proof fn law_remove_pure_code_sound(s: Seq<Node>, m: Machine, steps: u64, read: Option<i8>)
    ensures
        run(s, 0, m, steps, read).0 is Completed ==> {
            &&& run(remove_pure_code_spec(s).0, 0, m, steps, read).0 is Completed
            &&& run(remove_pure_code_spec(s).0, 0, m, steps, read).1.outputs == run(s, 0, m, steps, read).1.outputs
        },
        run(s, 0, m, steps, read).0 == Outcome::ReachedRuntimeValue
            ==> run(remove_pure_code_spec(s).0, 0, m, steps, read) == run(s, 0, m, steps, read),
{
    let k = effect_end(s, s.len() as int);
    crate::peephole::lemma_effect_end_bounds(s, s.len() as int);
    let t = s.take(k);
    let tail = s.skip(k);
    assert(t + tail =~= s);
    assert forall|i: int| 0 <= i < tail.len() implies !has_effect(#[trigger] tail[i]) by {
        assert(tail[i] == s[k + i]);
    }
    lemma_run_concat(t, tail, 0, m, steps, read);
    match run(t, 0, m, steps, read) {
        (Outcome::Completed(left), m1) => {
            lemma_run_without_effects(tail, 0, m1, left, read);
        },
        _ => {},
    }
}

/// Two machines with the same tape, pointer and outputs.
pub open spec fn same_state(a: Machine, b: Machine) -> bool {
    a.cells == b.cells && a.ptr == b.ptr && a.outputs == b.outputs
}

/// What a replacement owes to a run of the given program: where the given program
/// completed, it completes too, in the same state and with at least as many
/// steps left; where the given program stopped at a read, it stops at a read too,
/// with the same tape, pointer and outputs.
pub open spec fn result_refines(new: (Outcome, Machine), old: (Outcome, Machine)) -> bool {
    match old.0 {
        Outcome::Completed(k) => new.0 matches Outcome::Completed(k2) && k2 >= k && new.1 == old.1,
        Outcome::ReachedRuntimeValue => new.0 == Outcome::ReachedRuntimeValue && same_state(new.1, old.1),
        _ => true,
    }
}

/// `t` does what `s` does, from every state with the pointer on the tape.
pub open spec fn refines(t: Seq<Node>, s: Seq<Node>) -> bool {
    forall|m: Machine, steps: u64, read: Option<i8>|
        pointer_on_tape(m) ==> #[trigger] result_refines(run(t, 0, m, steps, read), run(s, 0, m, steps, read))
}

/// Every program does what it does.
pub proof fn lemma_refines_refl(s: Seq<Node>)
    ensures
        refines(s, s),
{
}

/// Refinement carries over from the first node and the rest to the whole.
proof fn lemma_refines_concat_at(a2: Seq<Node>, a: Seq<Node>, t: Seq<Node>, s: Seq<Node>, m: Machine, steps: u64, read: Option<i8>)
    requires
        refines(a2, a),
        refines(t, s),
        pointer_on_tape(m),
    ensures
        result_refines(run(a2 + t, 0, m, steps, read), run(a + s, 0, m, steps, read)),
{
    lemma_run_concat(a, s, 0, m, steps, read);
    lemma_run_concat(a2, t, 0, m, steps, read);
    let r1 = run(a, 0, m, steps, read);
    let r2 = run(a2, 0, m, steps, read);
    assert(result_refines(r2, r1));
    match r1.0 {
        Outcome::Completed(k1) => {
            let m1 = r1.1;
            assert(run(a + s, 0, m, steps, read) == run(s, 0, m1, k1, read));
            let k2 = match r2.0 {
                Outcome::Completed(k) => k,
                _ => 0,
            };
            assert(r2 == (Outcome::Completed(k2), m1));
            assert(k2 >= k1);
            assert(run(a2 + t, 0, m, steps, read) == run(t, 0, m1, k2, read));
            lemma_run_keeps_pointer(a, 0, m, steps, read);
            let rs = run(s, 0, m1, k1, read);
            let rt = run(t, 0, m1, k1, read);
            assert(result_refines(rt, rs));
            lemma_run_completed_steps(t, 0, m1, k1, read);
            if !(rt.0 is OutOfSteps) {
                lemma_run_more_steps(t, 0, m1, k1, (k2 - k1) as u64, read);
                assert((k1 + (k2 - k1) as u64) as u64 == k2);
            }
        },
        Outcome::ReachedRuntimeValue => {
            assert(run(a + s, 0, m, steps, read) == r1);
            assert(r2.0 == Outcome::ReachedRuntimeValue);
            assert(run(a2 + t, 0, m, steps, read) == r2);
        },
        _ => {},
    }
}

/// Refinement of the first part and of the rest is refinement of the
/// whole.
pub proof fn lemma_refines_concat(a2: Seq<Node>, a: Seq<Node>, t: Seq<Node>, s: Seq<Node>)
    requires
        refines(a2, a),
        refines(t, s),
    ensures
        refines(a2 + t, a + s),
{
    assert forall|m: Machine, steps: u64, read: Option<i8>| pointer_on_tape(m) implies #[trigger] result_refines(
        run(a2 + t, 0, m, steps, read),
        run(a + s, 0, m, steps, read),
    ) by {
        lemma_refines_concat_at(a2, a, t, s, m, steps, read);
    }
}

proof fn lemma_refines_cons(x2: Node, x: Node, t: Seq<Node>, s: Seq<Node>)
    requires
        refines(seq![x2], seq![x]),
        refines(t, s),
    ensures
        refines(seq![x2] + t, seq![x] + s),
{
    lemma_refines_concat(seq![x2], seq![x], t, s);
}

/// Refinement chains.
pub proof fn lemma_refines_trans(u: Seq<Node>, t: Seq<Node>, s: Seq<Node>)
    requires
        refines(u, t),
        refines(t, s),
    ensures
        refines(u, s),
{
    assert forall|m: Machine, steps: u64, read: Option<i8>| pointer_on_tape(m) implies #[trigger] result_refines(
        run(u, 0, m, steps, read),
        run(s, 0, m, steps, read),
    ) by {
        assert(result_refines(run(u, 0, m, steps, read), run(t, 0, m, steps, read)));
        assert(result_refines(run(t, 0, m, steps, read), run(s, 0, m, steps, read)));
    }
}

/// Refinement node by node is refinement of the whole.
pub proof fn lemma_refines_pointwise(t: Seq<Node>, s: Seq<Node>)
    requires
        t.len() == s.len(),
        forall|i: int| 0 <= i < s.len() ==> refines(seq![#[trigger] t[i]], seq![s[i]]),
    ensures
        refines(t, s),
    decreases s.len(),
{
    if s.len() == 0 {
        assert(t =~= s);
        lemma_refines_refl(s);
    } else {
        let t1 = t.drop_first();
        let s1 = s.drop_first();
        assert forall|i: int| 0 <= i < s1.len() implies refines(seq![#[trigger] t1[i]], seq![s1[i]]) by {
            assert(t1[i] == t[i + 1] && s1[i] == s[i + 1]);
        }
        lemma_refines_pointwise(t1, s1);
        assert(refines(seq![t[0]], seq![s[0]]));
        lemma_refines_cons(t[0], s[0], t1, s1);
        assert(seq![t[0]] + t1 =~= t);
        assert(seq![s[0]] + s1 =~= s);
    }
}

proof fn lemma_refines_loop_steps(b2: Seq<Node>, b: Seq<Node>, p: Option<Position>, m: Machine, steps: u64, read: Option<i8>)
    requires
        refines(b2, b),
        pointer_on_tape(m),
    ensures
        result_refines(
            run(seq![Node::Loop { body: b2, position: p }], 0, m, steps, read),
            run(seq![Node::Loop { body: b, position: p }], 0, m, steps, read),
        ),
    decreases steps,
{
    let n2 = Node::Loop { body: b2, position: p };
    let n = Node::Loop { body: b, position: p };
    let l2 = seq![n2];
    let l = seq![n];
    assert(l2[0] == n2 && l[0] == n);
    if steps == 0 {
        assert(run(l, 0, m, steps, read).0 == Outcome::OutOfSteps);
    } else if m.cells[m.ptr] == 0 {
        assert(run(l, 0, m, steps, read) == run(l, 1, m, (steps - 1) as u64, read));
        assert(run(l2, 0, m, steps, read) == run(l2, 1, m, (steps - 1) as u64, read));
        assert(run(l2, 1, m, (steps - 1) as u64, read) == run(l, 1, m, (steps - 1) as u64, read));
    } else {
        let rb = run(b, 0, m, steps, read);
        let rb2 = run(b2, 0, m, steps, read);
        assert(result_refines(rb2, rb));
        lemma_run_completed_steps(b, 0, m, steps, read);
        lemma_run_completed_steps(b2, 0, m, steps, read);
        match rb.0 {
            Outcome::Completed(r) => {
                let r2 = match rb2.0 {
                    Outcome::Completed(k) => k,
                    _ => 0,
                };
                let after = rb.1;
                assert(rb2 == (Outcome::Completed(r2), after));
                assert(run(l, 0, m, steps, read) == run(l, 0, after, (r - 1) as u64, read));
                assert(run(l2, 0, m, steps, read) == run(l2, 0, after, (r2 - 1) as u64, read));
                lemma_run_keeps_pointer(b, 0, m, steps, read);
                lemma_refines_loop_steps(b2, b, p, after, (r - 1) as u64, read);
                let rl2 = run(l2, 0, after, (r - 1) as u64, read);
                lemma_run_completed_steps(l2, 0, after, (r - 1) as u64, read);
                if !(rl2.0 is OutOfSteps) {
                    lemma_run_more_steps(l2, 0, after, (r - 1) as u64, (r2 - r) as u64, read);
                    assert(((r - 1) as u64 + (r2 - r) as u64) as u64 == (r2 - 1) as u64);
                }
            },
            Outcome::ReachedRuntimeValue => {
                let after = rb.1;
                let after2 = rb2.1;
                assert(rb2.0 == Outcome::ReachedRuntimeValue);
                assert(run(l, 0, m, steps, read) == (Outcome::ReachedRuntimeValue,
                    if after.start is None { with_start(after, n) } else { after }));
                assert(run(l2, 0, m, steps, read) == (Outcome::ReachedRuntimeValue,
                    if after2.start is None { with_start(after2, n2) } else { after2 }));
            },
            _ => {},
        }
    }
}

/// A loop whose body does what another body does does what the other loop
/// does.
pub proof fn lemma_refines_loop(b2: Seq<Node>, b: Seq<Node>, p: Option<Position>)
    requires
        refines(b2, b),
    ensures
        refines(seq![Node::Loop { body: b2, position: p }], seq![Node::Loop { body: b, position: p }]),
{
    assert forall|m: Machine, steps: u64, read: Option<i8>| pointer_on_tape(m) implies #[trigger] result_refines(
        run(seq![Node::Loop { body: b2, position: p }], 0, m, steps, read),
        run(seq![Node::Loop { body: b, position: p }], 0, m, steps, read),
    ) by {
        lemma_refines_loop_steps(b2, b, p, m, steps, read);
    }
}

proof fn lemma_zeroing_steps(p: Option<Position>, q: Option<Position>, m: Machine, steps: u64, read: Option<i8>)
    requires
        pointer_on_tape(m),
    ensures
        result_refines(
            run(seq![Node::SetCell { amount: 0, offset: 0, position: p }], 0, m, steps, read),
            run(seq![Node::Loop { body: seq![Node::Increment { amount: -1i8, offset: 0, position: q }], position: p }], 0, m, steps, read),
        ),
    decreases steps,
{
    let set_node = Node::SetCell { amount: 0, offset: 0, position: p };
    let inc_node = Node::Increment { amount: -1i8, offset: 0, position: q };
    let set = seq![set_node];
    let body = seq![inc_node];
    let loop_node = Node::Loop { body, position: p };
    let l = seq![loop_node];
    assert(set[0] == set_node && body[0] == inc_node && l[0] == loop_node);
    let zeroed = with_cells(m, m.cells.update(m.ptr, 0));
    assert(m.ptr + 0 == m.ptr);
    assert(on_tape(m, m.ptr));
    if steps > 0 {
        assert(run(set, 0, m, steps, read) == run(set, 1, zeroed, (steps - 1) as u64, read));
        if m.cells[m.ptr] == 0 {
            assert(m.cells.update(m.ptr, 0) =~= m.cells);
            assert(zeroed == m);
            assert(run(l, 0, m, steps, read) == run(l, 1, m, (steps - 1) as u64, read));
        } else {
            let dec = with_cells(m, m.cells.update(m.ptr, vstd::wrapping::i8_specs::wrapping_add(m.cells[m.ptr], -1i8)));
            assert(run(body, 0, m, steps, read) == run(body, 1, dec, (steps - 1) as u64, read));
            if steps > 1 {
                assert(run(body, 0, m, steps, read) == (Outcome::Completed((steps - 1) as u64), dec));
                assert(run(l, 0, m, steps, read) == run(l, 0, dec, (steps - 2) as u64, read));
                assert(pointer_on_tape(dec));
                lemma_zeroing_steps(p, q, dec, (steps - 2) as u64, read);
                assert(dec.cells.update(dec.ptr, 0) =~= m.cells.update(m.ptr, 0));
                assert(with_cells(dec, dec.cells.update(dec.ptr, 0)) == zeroed);
                let rl = run(l, 0, dec, (steps - 2) as u64, read);
                if steps > 2 {
                    assert(on_tape(dec, dec.ptr + 0));
                    assert(run(set, 0, dec, (steps - 2) as u64, read) == run(set, 1, with_cells(dec, dec.cells.update(dec.ptr, 0)), (steps - 3) as u64, read));
                }
            } else {
                assert(run(body, 1, dec, 0, read).0 == Outcome::OutOfSteps);
            }
        }
    }
}

/// `[-]` and a set to zero do the same.
proof fn lemma_zeroing_refines(p: Option<Position>, q: Option<Position>)
    ensures
        refines(
            seq![Node::SetCell { amount: 0, offset: 0, position: p }],
            seq![Node::Loop { body: seq![Node::Increment { amount: -1i8, offset: 0, position: q }], position: p }],
        ),
{
    assert forall|m: Machine, steps: u64, read: Option<i8>| pointer_on_tape(m) implies #[trigger] result_refines(
        run(seq![Node::SetCell { amount: 0, offset: 0, position: p }], 0, m, steps, read),
        run(seq![Node::Loop { body: seq![Node::Increment { amount: -1i8, offset: 0, position: q }], position: p }], 0, m, steps, read),
    ) by {
        lemma_zeroing_steps(p, q, m, steps, read);
    }
}

proof fn lemma_zeroing_node_refines(x: Node)
    ensures
        refines(seq![pass_node(Pass::ZeroingLoops, x)], seq![x]),
    decreases x, 1int,
{
    match x {
        Node::Loop { body, position } => {
            if is_zeroing_body(body) {
                let q = match body[0] {
                    Node::Increment { position, .. } => position,
                    _ => None,
                };
                assert(body =~= seq![Node::Increment { amount: -1i8, offset: 0, position: q }]);
                lemma_zeroing_refines(position, q);
            } else {
                lemma_zeroing_seq_refines(body);
                lemma_refines_loop(pass_seq(Pass::ZeroingLoops, body), body, position);
            }
        },
        _ => {
            lemma_refines_refl(seq![x]);
        },
    }
}

proof fn lemma_zeroing_seq_refines(s: Seq<Node>)
    ensures
        refines(pass_seq(Pass::ZeroingLoops, s), s),
    decreases s, 0int,
{
    let t = pass_seq(Pass::ZeroingLoops, s);
    assert(t.len() == s.len());
    assert forall|i: int| 0 <= i < s.len() implies refines(seq![#[trigger] t[i]], seq![s[i]]) by {
        assert(t[i] == pass_node(Pass::ZeroingLoops, s[i]));
        lemma_zeroing_node_refines(s[i]);
    }
    lemma_refines_pointwise(t, s);
}

/// Turning `[-]` into a set to zero, at every depth, does not change what a
/// program does: where the given program completes, the optimised program
/// completes within the same steps, with the same tape, pointer and
/// outputs; where the given program stops at a read, so does the optimised one,
/// with the same tape, pointer and outputs.
pub proof fn law_zeroing_loops_sound(s: Seq<Node>, m: Machine, steps: u64, read: Option<i8>)
    requires
        pointer_on_tape(m),
    ensures
        result_refines(run(pass_seq(Pass::ZeroingLoops, s), 0, m, steps, read), run(s, 0, m, steps, read)),
{
    lemma_zeroing_seq_refines(s);
}

/// Wrapping addition of cells is associative.
proof fn lemma_wrapping_add_assoc(c: i8, a: i8, b: i8)
    ensures
        vstd::wrapping::i8_specs::wrapping_add(vstd::wrapping::i8_specs::wrapping_add(c, a), b)
            == vstd::wrapping::i8_specs::wrapping_add(c, vstd::wrapping::i8_specs::wrapping_add(b, a)),
{
}

/// Two nodes that merge do what the node they merge into does.
proof fn lemma_merge_refines_at(rule: MergeRule, x: Node, y: Node, m: Machine, steps: u64, read: Option<i8>)
    requires
        merge_spec(rule, x, y) is Some,
        pointer_on_tape(m),
    ensures
        result_refines(run(seq![merge_spec(rule, x, y).unwrap()], 0, m, steps, read), run(seq![x, y], 0, m, steps, read)),
{
    let merged = merge_spec(rule, x, y).unwrap();
    let one = seq![merged];
    let xy = seq![x, y];
    assert(one[0] == merged && xy[0] == x && xy[1] == y);
    if steps >= 3 {
        match (x, y) {
            (Node::Increment { amount: a1, offset: o1, .. }, Node::Increment { amount: a2, .. }) => {
                let t = m.ptr + o1;
                if on_tape(m, t) {
                    let m1 = with_cells(m, m.cells.update(t, vstd::wrapping::i8_specs::wrapping_add(m.cells[t], a1)));
                    let m2 = with_cells(m1, m1.cells.update(t, vstd::wrapping::i8_specs::wrapping_add(m1.cells[t], a2)));
                    assert(run(xy, 0, m, steps, read) == run(xy, 1, m1, (steps - 1) as u64, read));
                    assert(run(xy, 1, m1, (steps - 1) as u64, read) == run(xy, 2, m2, (steps - 2) as u64, read));
                    let mm = with_cells(m, m.cells.update(t, vstd::wrapping::i8_specs::wrapping_add(m.cells[t], vstd::wrapping::i8_specs::wrapping_add(a2, a1))));
                    assert(run(one, 0, m, steps, read) == run(one, 1, mm, (steps - 1) as u64, read));
                    lemma_wrapping_add_assoc(m.cells[t], a1, a2);
                    assert(m2.cells =~= mm.cells);
                }
            },
            (Node::PointerIncrement { amount: a1, .. }, Node::PointerIncrement { amount: a2, .. }) => {
                let t1 = m.ptr + a1;
                if on_tape(m, t1) {
                    let m1 = with_ptr(m, t1);
                    let t2 = t1 + a2;
                    assert(run(xy, 0, m, steps, read) == run(xy, 1, m1, (steps - 1) as u64, read));
                    if on_tape(m1, t2) {
                        assert(run(xy, 1, m1, (steps - 1) as u64, read) == run(xy, 2, with_ptr(m1, t2), (steps - 2) as u64, read));
                        assert(vstd::wrapping::isize_specs::wrapping_add(a2, a1) == a1 + a2);
                        assert(run(one, 0, m, steps, read) == run(one, 1, with_ptr(m, t2), (steps - 1) as u64, read));
                    }
                }
            },
            (Node::Increment { amount: a1, offset: o1, .. }, Node::SetCell { amount: a2, .. }) => {
                let t = m.ptr + o1;
                if on_tape(m, t) {
                    let m1 = with_cells(m, m.cells.update(t, vstd::wrapping::i8_specs::wrapping_add(m.cells[t], a1)));
                    let m2 = with_cells(m1, m1.cells.update(t, a2));
                    assert(run(xy, 0, m, steps, read) == run(xy, 1, m1, (steps - 1) as u64, read));
                    assert(run(xy, 1, m1, (steps - 1) as u64, read) == run(xy, 2, m2, (steps - 2) as u64, read));
                    let mm = with_cells(m, m.cells.update(t, a2));
                    assert(run(one, 0, m, steps, read) == run(one, 1, mm, (steps - 1) as u64, read));
                    assert(m2.cells =~= mm.cells);
                }
            },
            (Node::SetCell { amount: a1, offset: o1, .. }, Node::Increment { amount: a2, .. }) => {
                let t = m.ptr + o1;
                if on_tape(m, t) {
                    let m1 = with_cells(m, m.cells.update(t, a1));
                    let m2 = with_cells(m1, m1.cells.update(t, vstd::wrapping::i8_specs::wrapping_add(m1.cells[t], a2)));
                    assert(run(xy, 0, m, steps, read) == run(xy, 1, m1, (steps - 1) as u64, read));
                    assert(run(xy, 1, m1, (steps - 1) as u64, read) == run(xy, 2, m2, (steps - 2) as u64, read));
                    let mm = with_cells(m, m.cells.update(t, vstd::wrapping::i8_specs::wrapping_add(a1, a2)));
                    assert(run(one, 0, m, steps, read) == run(one, 1, mm, (steps - 1) as u64, read));
                    assert(m2.cells =~= mm.cells);
                }
            },
            (Node::SetCell { amount: a1, offset: o1, .. }, Node::SetCell { amount: a2, .. }) => {
                let t = m.ptr + o1;
                if on_tape(m, t) {
                    let m1 = with_cells(m, m.cells.update(t, a1));
                    let m2 = with_cells(m1, m1.cells.update(t, a2));
                    assert(run(xy, 0, m, steps, read) == run(xy, 1, m1, (steps - 1) as u64, read));
                    assert(run(xy, 1, m1, (steps - 1) as u64, read) == run(xy, 2, m2, (steps - 2) as u64, read));
                    let mm = with_cells(m, m.cells.update(t, a2));
                    assert(run(one, 0, m, steps, read) == run(one, 1, mm, (steps - 1) as u64, read));
                    assert(m2.cells =~= mm.cells);
                }
            },
            _ => {},
        }
    } else if steps > 0 {
        lemma_run_completed_steps(xy, 0, m, steps, read);
        lemma_run_without_effects_xy(x, y, m, steps, read);
    }
}

/// Two nodes that merge never stop at a read, and two steps are not
/// enough to run both.
proof fn lemma_run_without_effects_xy(x: Node, y: Node, m: Machine, steps: u64, read: Option<i8>)
    requires
        !has_effect(x),
        !has_effect(y),
        0 < steps < 3,
    ensures
        !(run(seq![x, y], 0, m, steps, read).0 is Completed),
        run(seq![x, y], 0, m, steps, read).0 != Outcome::ReachedRuntimeValue,
{
    let xy = seq![x, y];
    assert forall|i: int| 0 <= i < xy.len() implies !has_effect(#[trigger] xy[i]) by {
        if i == 0 {
            assert(xy[0] == x);
        } else {
            assert(xy[1] == y);
        }
    }
    lemma_run_without_effects(xy, 0, m, steps, read);
    lemma_run_uses_steps(xy, 0, m, steps, read);
    lemma_run_completed_steps(xy, 0, m, steps, read);
}

/// Running the nodes from `j` on, with no loops among them, takes a step
/// for each of them.
proof fn lemma_run_uses_steps(s: Seq<Node>, j: nat, m: Machine, steps: u64, read: Option<i8>)
    requires
        forall|i: int| 0 <= i < s.len() ==> !has_effect(#[trigger] s[i]),
        j <= s.len(),
    ensures
        run(s, j, m, steps, read).0 matches Outcome::Completed(k) ==> k + (s.len() - j) == steps,
    decreases steps,
{
    if j < s.len() && steps > 0 {
        let next_steps = (steps - 1) as u64;
        assert(!has_effect(s[j as int]));
        match s[j as int] {
            Node::Increment { amount, offset, .. } => {
                let target = m.ptr + offset;
                if on_tape(m, target) {
                    let cells = m.cells.update(target, vstd::wrapping::i8_specs::wrapping_add(m.cells[target], amount));
                    lemma_run_uses_steps(s, j + 1, with_cells(m, cells), next_steps, read);
                }
            },
            Node::SetCell { amount, offset, .. } => {
                let target = m.ptr + offset;
                if on_tape(m, target) {
                    lemma_run_uses_steps(s, j + 1, with_cells(m, m.cells.update(target, amount)), next_steps, read);
                }
            },
            Node::PointerIncrement { amount, .. } => {
                let target = m.ptr + amount;
                if on_tape(m, target) {
                    lemma_run_uses_steps(s, j + 1, with_ptr(m, target), next_steps, read);
                }
            },
            Node::MultiplyMove { changes, .. } => {
                if m.cells[m.ptr] == 0 {
                    lemma_run_uses_steps(s, j + 1, m, next_steps, read);
                } else if multiply_targets_on_tape(changes, m) {
                    lemma_run_uses_steps(s, j + 1, with_cells(m, multiply_cells(changes, m)), next_steps, read);
                }
            },
            _ => {},
        }
    }
}

proof fn lemma_merge_refines(rule: MergeRule, x: Node, y: Node)
    requires
        merge_spec(rule, x, y) is Some,
    ensures
        refines(seq![merge_spec(rule, x, y).unwrap()], seq![x, y]),
{
    let one = seq![merge_spec(rule, x, y).unwrap()];
    let xy = seq![x, y];
    assert forall|m: Machine, steps: u64, read: Option<i8>| pointer_on_tape(m) implies #[trigger] result_refines(
        run(one, 0, m, steps, read),
        run(xy, 0, m, steps, read),
    ) by {
        lemma_merge_refines_at(rule, x, y, m, steps, read);
    }
}

proof fn lemma_coalesce_from_refines(acc: Node, rest: Seq<Node>, rule: MergeRule)
    ensures
        refines(coalesce_from(acc, rest, rule), seq![acc] + rest),
    decreases rest.len(),
{
    if rest.len() == 0 {
        assert(seq![acc] + rest =~= seq![acc]);
        lemma_refines_refl(seq![acc]);
    } else {
        let rest1 = rest.drop_first();
        assert(seq![rest[0]] + rest1 =~= rest);
        match merge_spec(rule, acc, rest[0]) {
            Some(merged) => {
                lemma_coalesce_from_refines(merged, rest1, rule);
                lemma_merge_refines(rule, acc, rest[0]);
                lemma_refines_refl(rest1);
                lemma_refines_concat(seq![merged], seq![acc, rest[0]], rest1, rest1);
                assert(seq![acc, rest[0]] + rest1 =~= seq![acc] + rest);
                lemma_refines_trans(coalesce_from(merged, rest1, rule), seq![merged] + rest1, seq![acc] + rest);
            },
            None => {
                lemma_coalesce_from_refines(rest[0], rest1, rule);
                lemma_refines_refl(seq![acc]);
                lemma_refines_concat(seq![acc], seq![acc], coalesce_from(rest[0], rest1, rule), seq![rest[0]] + rest1);
            },
        }
    }
}

proof fn lemma_coalesce_refines(s: Seq<Node>, rule: MergeRule)
    ensures
        refines(coalesce(s, rule), s),
{
    if s.len() == 0 {
        lemma_refines_refl(s);
    } else {
        lemma_coalesce_from_refines(s[0], s.drop_first(), rule);
        assert(seq![s[0]] + s.drop_first() =~= s);
    }
}

/// An increment of zero, of a cell or of the pointer, can go: it changes
/// nothing.
proof fn lemma_zero_increment_refines(x: Node)
    requires
        !not_zero_increment(x) || !not_zero_ptr_increment(x),
    ensures
        refines(Seq::<Node>::empty(), seq![x]),
{
    assert forall|m: Machine, steps: u64, read: Option<i8>| pointer_on_tape(m) implies #[trigger] result_refines(
        run(Seq::<Node>::empty(), 0, m, steps, read),
        run(seq![x], 0, m, steps, read),
    ) by {
        let one = seq![x];
        assert(one[0] == x);
        if steps > 0 {
            match x {
                Node::Increment { amount, offset, .. } => {
                    let t = m.ptr + offset;
                    if on_tape(m, t) {
                        assert(m.cells.update(t, vstd::wrapping::i8_specs::wrapping_add(m.cells[t], amount)) =~= m.cells);
                        assert(with_cells(m, m.cells) == m);
                        assert(run(one, 0, m, steps, read) == run(one, 1, m, (steps - 1) as u64, read));
                    }
                },
                Node::PointerIncrement { amount, .. } => {
                    assert(m.ptr + amount == m.ptr);
                    assert(with_ptr(m, m.ptr) == m);
                    assert(run(one, 0, m, steps, read) == run(one, 1, m, (steps - 1) as u64, read));
                },
                _ => {},
            }
        }
    }
}

proof fn lemma_keep_nodes_refines(s: Seq<Node>, pointer: bool)
    ensures
        pointer ==> refines(keep_nodes(s, |n: Node| not_zero_ptr_increment(n)), s),
        !pointer ==> refines(keep_nodes(s, |n: Node| not_zero_increment(n)), s),
    decreases s.len(),
{
    let keep = if pointer { |n: Node| not_zero_ptr_increment(n) } else { |n: Node| not_zero_increment(n) };
    if s.len() == 0 {
        lemma_refines_refl(s);
    } else {
        let init = s.drop_last();
        let last = s.last();
        lemma_keep_nodes_refines(init, pointer);
        assert(init + seq![last] =~= s);
        let kept = keep_nodes(init, keep);
        if keep(last) {
            lemma_refines_refl(seq![last]);
            lemma_refines_concat(kept, init, seq![last], seq![last]);
            assert(kept + seq![last] =~= kept.push(last));
        } else {
            lemma_zero_increment_refines(last);
            lemma_refines_concat(kept, init, Seq::<Node>::empty(), seq![last]);
            assert(kept + Seq::<Node>::empty() =~= kept);
        }
    }
}

proof fn lemma_merge_set_rules_refines(x: Node, y: Node)
    requires
        merge_set_rules(x, y) is Some,
    ensures
        refines(seq![merge_set_rules(x, y).unwrap()], seq![x, y]),
{
    if merge_spec(MergeRule::IncrementThenSet, x, y) is Some {
        lemma_merge_refines(MergeRule::IncrementThenSet, x, y);
    } else if merge_spec(MergeRule::SetThenIncrement, x, y) is Some {
        lemma_merge_refines(MergeRule::SetThenIncrement, x, y);
    } else {
        lemma_merge_refines(MergeRule::SetThenSet, x, y);
    }
}

/// A set that absorbs its neighbours of the same cell does what they did.
proof fn lemma_set_push_refines(kept: Seq<Node>, x: Node)
    ensures
        refines(set_push(kept, x), kept.push(x)),
    decreases kept.len(),
{
    if kept.len() > 0 && merge_set_rules(kept.last(), x) is Some {
        let rest = kept.drop_last();
        let last = kept.last();
        let y = merge_set_rules(last, x).unwrap();
        lemma_set_push_refines(rest, y);
        lemma_merge_set_rules_refines(last, x);
        lemma_refines_refl(rest);
        lemma_refines_concat(rest, rest, seq![y], seq![last, x]);
        assert(rest + seq![y] =~= rest.push(y));
        assert(rest + seq![last, x] =~= kept.push(x));
        lemma_refines_trans(set_push(rest, y), rest.push(y), kept.push(x));
    } else {
        lemma_refines_refl(kept.push(x));
    }
}

proof fn lemma_sets_refines(s: Seq<Node>)
    ensures
        refines(merge_sets(s), s),
    decreases s.len(),
{
    if s.len() == 0 {
        lemma_refines_refl(s);
    } else {
        let init = s.drop_last();
        let a = merge_sets(init);
        lemma_sets_refines(init);
        lemma_set_push_refines(a, s.last());
        lemma_refines_refl(seq![s.last()]);
        lemma_refines_concat(a, init, seq![s.last()], seq![s.last()]);
        assert(a + seq![s.last()] =~= a.push(s.last()));
        assert(init + seq![s.last()] =~= s);
        lemma_refines_trans(merge_sets(s), a.push(s.last()), s);
    }
}

/// Merging an increment into the last kept node, or dropping a last kept
/// increment of zero first, keeps what the nodes do.
proof fn lemma_increment_push_refines(kept: Seq<Node>, x: Node)
    ensures
        refines(increment_push(kept, x), kept.push(x)),
    decreases kept.len(),
{
    let rest = kept.drop_last();
    if kept.len() > 0 && merge_spec(MergeRule::Increments, kept.last(), x) is Some {
        let last = kept.last();
        let y = merge_spec(MergeRule::Increments, last, x).unwrap();
        lemma_merge_refines(MergeRule::Increments, last, x);
        lemma_refines_refl(rest);
        lemma_refines_concat(rest, rest, seq![y], seq![last, x]);
        assert(rest + seq![y] =~= rest.push(y));
        assert(rest + seq![last, x] =~= kept.push(x));
    } else if kept.len() > 0 && !not_zero_increment(kept.last()) {
        let z = kept.last();
        lemma_increment_push_refines(rest, x);
        lemma_zero_increment_refines(z);
        lemma_refines_refl(seq![x]);
        lemma_refines_concat(Seq::<Node>::empty(), seq![z], seq![x], seq![x]);
        assert(Seq::<Node>::empty() + seq![x] =~= seq![x]);
        assert(seq![z] + seq![x] =~= seq![z, x]);
        lemma_refines_refl(rest);
        lemma_refines_concat(rest, rest, seq![x], seq![z, x]);
        assert(rest + seq![x] =~= rest.push(x));
        assert(rest + seq![z, x] =~= kept.push(x));
        lemma_refines_trans(increment_push(kept, x), rest.push(x), kept.push(x));
    } else {
        lemma_refines_refl(kept.push(x));
    }
}

proof fn lemma_merge_increments_refines(s: Seq<Node>)
    ensures
        refines(merge_increments(s), s),
    decreases s.len(),
{
    if s.len() == 0 {
        lemma_refines_refl(s);
    } else {
        let init = s.drop_last();
        let a = merge_increments(init);
        lemma_merge_increments_refines(init);
        lemma_increment_push_refines(a, s.last());
        lemma_refines_refl(seq![s.last()]);
        lemma_refines_concat(a, init, seq![s.last()], seq![s.last()]);
        assert(a + seq![s.last()] =~= a.push(s.last()));
        assert(init + seq![s.last()] =~= s);
        lemma_refines_trans(merge_increments(s), a.push(s.last()), s);
    }
}

/// The passes that merge neighbouring nodes, at one level.
proof fn lemma_merge_pass_top_refines(p: Pass, t: Seq<Node>)
    requires
        p == Pass::CombineIncrements || p == Pass::CombinePtrIncrements || p == Pass::CombineSets,
    ensures
        refines(pass_top(p, t), t),
{
    match p {
        Pass::CombineIncrements => {
            let c = merge_increments(t);
            lemma_merge_increments_refines(t);
            lemma_keep_nodes_refines(c, false);
            lemma_refines_trans(pass_top(p, t), c, t);
        },
        Pass::CombinePtrIncrements => {
            let c = coalesce(t, MergeRule::PtrIncrements);
            lemma_coalesce_refines(t, MergeRule::PtrIncrements);
            lemma_keep_nodes_refines(c, true);
            lemma_refines_trans(pass_top(p, t), c, t);
        },
        _ => {
            lemma_sets_refines(t);
        },
    }
}

proof fn lemma_merge_node_refines(p: Pass, x: Node)
    requires
        p == Pass::CombineIncrements || p == Pass::CombinePtrIncrements || p == Pass::CombineSets,
    ensures
        refines(seq![pass_node(p, x)], seq![x]),
    decreases x, 1int,
{
    match x {
        Node::Loop { body, position } => {
            lemma_merge_seq_refines(p, body);
            lemma_refines_loop(pass_seq(p, body), body, position);
        },
        _ => {
            lemma_refines_refl(seq![x]);
        },
    }
}

proof fn lemma_merge_seq_refines(p: Pass, s: Seq<Node>)
    requires
        p == Pass::CombineIncrements || p == Pass::CombinePtrIncrements || p == Pass::CombineSets,
    ensures
        refines(pass_seq(p, s), s),
    decreases s, 0int,
{
    let each = pass_each(p, s);
    assert forall|i: int| 0 <= i < s.len() implies refines(seq![#[trigger] each[i]], seq![s[i]]) by {
        lemma_merge_node_refines(p, s[i]);
    }
    lemma_refines_pointwise(each, s);
    lemma_merge_pass_top_refines(p, each);
    lemma_refines_trans(pass_seq(p, s), each, s);
}

/// Combining increments does not change what a program does: where the
/// given program completes, the optimised program completes within the same
/// steps, in the same state; where the given program stops at a read, so does
/// the optimised one, with the same tape, pointer and outputs.
pub proof fn law_combine_increments_sound(s: Seq<Node>, m: Machine, steps: u64, read: Option<i8>)
    requires
        pointer_on_tape(m),
    ensures
        result_refines(run(pass_seq(Pass::CombineIncrements, s), 0, m, steps, read), run(s, 0, m, steps, read)),
{
    lemma_merge_seq_refines(Pass::CombineIncrements, s);
}

/// Combining pointer increments does not change what a program does, in
/// the same sense.
pub proof fn law_combine_ptr_increments_sound(s: Seq<Node>, m: Machine, steps: u64, read: Option<i8>)
    requires
        pointer_on_tape(m),
    ensures
        result_refines(run(pass_seq(Pass::CombinePtrIncrements, s), 0, m, steps, read), run(s, 0, m, steps, read)),
{
    lemma_merge_seq_refines(Pass::CombinePtrIncrements, s);
}

/// Combining sets with neighbouring sets and increments does not change
/// what a program does, in the same sense.
pub proof fn law_combine_set_and_increments_sound(s: Seq<Node>, m: Machine, steps: u64, read: Option<i8>)
    requires
        pointer_on_tape(m),
    ensures
        result_refines(run(pass_seq(Pass::CombineSets, s), 0, m, steps, read), run(s, 0, m, steps, read)),
{
    lemma_merge_seq_refines(Pass::CombineSets, s);
}

} // verus!
