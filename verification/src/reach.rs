//! The cell analysis bounds what a run reaches: where it gives a number,
//! no instruction reached on the way touches a cell further right than
//! that many cells past the start.
use crate::bfir::Node;
use crate::bounds::{highest_cell_index_spec, highest_key, movement, overall_movement, Extent, MAX_CELL_INDEX};
use crate::execution::{initial_machine, law_outcome_names_instruction, multiply_targets_on_tape, on_tape, pointer_on_tape, run, Machine, Outcome};
use crate::soundness::lemma_run_keeps_pointer;
use vstd::prelude::*;

verus! {

/// `p` is at most `e` cells right of `b`, where `e` is a number.
pub open spec fn below(p: int, b: int, e: Extent) -> bool {
    match e {
        Extent::Number(x) => p <= b + x,
        Extent::Max => true,
    }
}

/// `a` is no more than `c`, with `Max` above every number.
pub open spec fn extent_le(a: Extent, c: Extent) -> bool {
    match (a, c) {
        (_, Extent::Max) => true,
        (Extent::Number(x), Extent::Number(y)) => x <= y,
        _ => false,
    }
}

pub open spec fn finite_tables_node(n: Node) -> bool
    decreases n, 1int,
{
    match n {
        Node::MultiplyMove { changes, .. } => changes.dom().finite(),
        Node::Loop { body, .. } => finite_tables(body),
        _ => true,
    }
}

/// Every multiply table, at every depth, has finitely many entries, as
/// every table built from a hash map has.
pub open spec fn finite_tables(s: Seq<Node>) -> bool
    decreases s, 0int,
{
    forall|i: int| 0 <= i < s.len() ==> finite_tables_node(#[trigger] s[i])
}

/// The instruction a run stopped at reaches a cell at or past the end of
/// the tape.
pub open spec fn reaches_past_end(m: Machine) -> bool {
    match m.start {
        Some(Node::Increment { offset, .. }) => m.ptr + offset >= m.cells.len(),
        Some(Node::SetCell { offset, .. }) => m.ptr + offset >= m.cells.len(),
        Some(Node::PointerIncrement { amount, .. }) => m.ptr + amount >= m.cells.len(),
        Some(Node::MultiplyMove { changes, .. }) => exists|k: isize| changes.contains_key(k) && m.ptr + k >= m.cells.len(),
        _ => false,
    }
}

proof fn lemma_finite_max(s: Set<isize>)
    requires
        s.finite(),
        s.len() > 0,
    ensures
        exists|k: isize| s.contains(k) && forall|j: isize| s.contains(j) ==> j <= k,
    decreases s.len(),
{
    let x = s.choose();
    assert(s.contains(x));
    let rest = s.remove(x);
    if rest.len() == 0 {
        assert forall|j: isize| s.contains(j) implies j <= x by {
            if j != x {
                assert(rest.contains(j));
            }
        }
    } else {
        lemma_finite_max(rest);
        let k = choose|k: isize| rest.contains(k) && forall|j: isize| rest.contains(j) ==> j <= k;
        let top = if x > k { x } else { k };
        assert forall|j: isize| s.contains(j) implies j <= top by {
            if j != x {
                assert(rest.contains(j));
            }
        }
        assert(s.contains(top));
    }
}

/// Every key of a finite table is at most its highest key.
proof fn lemma_highest_key(changes: Map<isize, i8>)
    requires
        changes.dom().finite(),
    ensures
        forall|k: isize| changes.contains_key(k) ==> k <= highest_key(changes),
{
    if exists|k: isize| changes.contains_key(k) && k > 0 {
        let k0 = choose|k: isize| changes.contains_key(k) && k > 0;
        assert(changes.dom().contains(k0));
        lemma_finite_max(changes.dom());
    }
}

/// The highest cell of a prefix is no more than that of the whole.
proof fn lemma_prefix_reach(s: Seq<Node>, j: int)
    requires
        0 <= j <= s.len(),
    ensures
        extent_le(overall_movement(s.take(j)).0, overall_movement(s).0),
    decreases s.len(),
{
    if j == s.len() {
        assert(s.take(j) =~= s);
        match overall_movement(s).0 {
            Extent::Number(x) => {},
            Extent::Max => {},
        }
    } else {
        lemma_prefix_reach(s.drop_last(), j);
        assert(s.take(j) =~= s.drop_last().take(j));
    }
}

proof fn lemma_reach(s: Seq<Node>, j: nat, m: Machine, steps: u64, read: Option<i8>, b: int, h: int)
    requires
        finite_tables(s),
        pointer_on_tape(m),
        j <= s.len(),
        overall_movement(s).0 == Extent::Number(h),
        b + h < m.cells.len(),
        below(m.ptr, b, overall_movement(s.take(j as int)).1),
    ensures
        run(s, j, m, steps, read).0 == Outcome::RuntimeError ==> !reaches_past_end(run(s, j, m, steps, read).1),
        run(s, j, m, steps, read).0 is Completed ==> below(run(s, j, m, steps, read).1.ptr, b, overall_movement(s).1),
    decreases steps, s,
{
    if j >= s.len() || steps == 0 {
        if j == s.len() {
            assert(s.take(j as int) =~= s);
        }
    } else {
        let x = s[j as int];
        let next_steps = (steps - 1) as u64;
        assert(s.take(j + 1int).drop_last() =~= s.take(j as int));
        assert(s.take(j + 1int).last() == x);
        lemma_prefix_reach(s, j + 1int);
        let net_j = overall_movement(s.take(j as int)).1;
        let (hi, mv) = movement(x);
        let nj = net_j->Number_0;
        let hx = hi->Number_0;
        assert(net_j is Number && hi is Number && nj + hx <= h);
        assert(m.ptr <= b + nj);
        assert(finite_tables_node(x));
        match x {
            Node::Increment { amount, offset, .. } => {
                let target = m.ptr + offset;
                if on_tape(m, target) {
                    let cells = m.cells.update(target, vstd::wrapping::i8_specs::wrapping_add(m.cells[target], amount));
                    lemma_reach(s, j + 1, crate::execution::with_cells(m, cells), next_steps, read, b, h);
                }
            },
            Node::SetCell { amount, offset, .. } => {
                let target = m.ptr + offset;
                if on_tape(m, target) {
                    lemma_reach(s, j + 1, crate::execution::with_cells(m, m.cells.update(target, amount)), next_steps, read, b, h);
                }
            },
            Node::PointerIncrement { amount, .. } => {
                let target = m.ptr + amount;
                if on_tape(m, target) {
                    lemma_reach(s, j + 1, crate::execution::with_ptr(m, target), next_steps, read, b, h);
                }
            },
            Node::MultiplyMove { changes, .. } => {
                lemma_highest_key(changes);
                if m.cells[m.ptr] == 0 {
                    lemma_reach(s, j + 1, m, next_steps, read, b, h);
                } else if multiply_targets_on_tape(changes, m) {
                    lemma_reach(
                        s,
                        j + 1,
                        crate::execution::with_cells(m, crate::execution::multiply_cells(changes, m)),
                        next_steps,
                        read,
                        b,
                        h,
                    );
                }
            },
            Node::Write { .. } => {
                lemma_reach(s, j + 1, crate::execution::with_output(m, m.cells[m.ptr]), next_steps, read, b, h);
            },
            Node::Read { .. } => {
                if let Some(value) = read {
                    lemma_reach(s, j + 1, crate::execution::with_cells(m, m.cells.update(m.ptr, value)), next_steps, read, b, h);
                }
            },
            Node::Loop { body, .. } => {
                let nb = overall_movement(body).1->Number_0;
                assert(overall_movement(body).1 is Number && nb <= 0);
                assert(overall_movement(body).0 == Extent::Number(hx));
                if m.cells[m.ptr] == 0 {
                    lemma_reach(s, j + 1, m, next_steps, read, b, h);
                } else {
                    let (outcome, after) = run(body, 0, m, steps, read);
                    assert(body.take(0) =~= Seq::<Node>::empty());
                    lemma_reach(body, 0, m, steps, read, m.ptr, hx);
                    law_outcome_names_instruction(body, 0, m, steps, read);
                    lemma_run_keeps_pointer(body, 0, m, steps, read);
                    crate::soundness::lemma_run_completed_steps(body, 0, m, steps, read);
                    if let Outcome::Completed(remaining) = outcome {
                        if 0 < remaining <= steps {
                            lemma_reach(s, j, after, (remaining - 1) as u64, read, b, h);
                        }
                    }
                }
            },
        }
    }
}

/// Where the cell analysis gives a number `h` and the tape reaches `h`
/// cells past the pointer, a run never stops at an instruction that
/// reaches past the end of the tape, and a completed run ends no further
/// right than the analysis's net movement.
pub proof fn law_analysis_bounds_run(s: Seq<Node>, m: Machine, steps: u64, read: Option<i8>)
    requires
        finite_tables(s),
        pointer_on_tape(m),
        overall_movement(s).0 matches Extent::Number(h) && m.ptr + h < m.cells.len(),
    ensures
        run(s, 0, m, steps, read).0 == Outcome::RuntimeError ==> !reaches_past_end(run(s, 0, m, steps, read).1),
        run(s, 0, m, steps, read).0 is Completed ==> below(run(s, 0, m, steps, read).1.ptr, m.ptr, overall_movement(s).1),
{
    assert(s.take(0) =~= Seq::<Node>::empty());
    lemma_reach(s, 0, m, steps, read, m.ptr, overall_movement(s).0->Number_0);
}

/// Compile-time execution on the tape that `highest_cell_index` sizes never
/// stops at an instruction that reaches past the tape's end, unless the
/// analysis found the reach unbounded or beyond the last cell.
pub proof fn law_execution_within_highest_cell(s: Seq<Node>, steps: u64)
    requires
        finite_tables(s),
        overall_movement(s).0 matches Extent::Number(h) && h <= MAX_CELL_INDEX,
    ensures
        run(s, 0, initial_machine(s), steps, None).0 == Outcome::RuntimeError ==> !reaches_past_end(
            run(s, 0, initial_machine(s), steps, None).1,
        ),
{
    crate::bounds::lemma_overall_in_range(s);
    assert(highest_cell_index_spec(s) == overall_movement(s).0->Number_0);
    law_analysis_bounds_run(s, initial_machine(s), steps, None);
}

} // verus!
