//! The passes that drop nodes which cannot change anything: loops reached
//! on a zero cell, and sets to zero of a cell that is already zero.
use crate::bfir::Node;
use crate::cell_scan::{
    lemma_next_change_bounds, lemma_prev_change_bounds, multiply_writes, next_change, next_change_from, prev_change_from,
    previous_change,
};
use crate::execution::{
    multiply_cells, multiply_targets_on_tape, on_tape, pointer_on_tape, run, with_cells, with_output, with_ptr, Machine, Outcome,
};
use crate::peephole::{drop_marked, is_set_zero, marked, pass_each, pass_node, pass_seq, remove_redundant_sets_spec, Marker, Pass};
use crate::soundness::{
    lemma_refines_concat, lemma_refines_loop, lemma_refines_pointwise, lemma_refines_refl, lemma_refines_trans,
    lemma_run_completed_steps, lemma_run_concat, lemma_run_keeps_pointer, lemma_run_more_steps, refines, result_refines,
};
use vstd::prelude::*;

verus! {

/// The machine after one node other than a loop, or `None` where the node
/// stops execution (a cell off the tape, or a read with no input).
pub open spec fn step_node(x: Node, m: Machine, read: Option<i8>) -> Option<Machine> {
    match x {
        Node::Increment { amount, offset, .. } => {
            let target = m.ptr + offset;
            if on_tape(m, target) {
                Some(with_cells(m, m.cells.update(target, vstd::wrapping::i8_specs::wrapping_add(m.cells[target], amount))))
            } else {
                None
            }
        },
        Node::SetCell { amount, offset, .. } => {
            let target = m.ptr + offset;
            if on_tape(m, target) {
                Some(with_cells(m, m.cells.update(target, amount)))
            } else {
                None
            }
        },
        Node::PointerIncrement { amount, .. } => {
            let target = m.ptr + amount;
            if on_tape(m, target) {
                Some(with_ptr(m, target))
            } else {
                None
            }
        },
        Node::MultiplyMove { changes, .. } => {
            if m.cells[m.ptr] == 0 {
                Some(m)
            } else if multiply_targets_on_tape(changes, m) {
                Some(with_cells(m, multiply_cells(changes, m)))
            } else {
                None
            }
        },
        Node::Write { .. } => Some(with_output(m, m.cells[m.ptr])),
        Node::Read { .. } => match read {
            Some(value) => Some(with_cells(m, m.cells.update(m.ptr, value))),
            None => None,
        },
        Node::Loop { .. } => None,
    }
}

/// How far a node moves the pointer.
pub open spec fn moved_by(x: Node) -> int {
    match x {
        Node::PointerIncrement { amount, .. } => amount as int,
        _ => 0,
    }
}

/// May the node change the cell at `offset` from the pointer? Reads and
/// loops count as changing every cell.
pub open spec fn may_change(x: Node, offset: int) -> bool {
    match x {
        Node::Increment { offset: o, .. } => o == offset,
        Node::SetCell { offset: o, .. } => o == offset,
        Node::MultiplyMove { changes, .. } => multiply_writes(changes, offset),
        Node::PointerIncrement { .. } => false,
        Node::Write { .. } => false,
        Node::Read { .. } => true,
        Node::Loop { .. } => true,
    }
}

/// A single node other than a loop that completes takes one step and
/// leaves the machine that `step_node` gives.
pub proof fn lemma_run_single(x: Node, m: Machine, r: u64, read: Option<i8>)
    requires
        !(x is Loop),
    ensures
        run(seq![x], 0, m, r, read) matches (Outcome::Completed(k), m2) ==> k == r - 1 && step_node(x, m, read) == Some(m2),
{
    let l = seq![x];
    assert(l[0] == x);
    if r > 0 {
        let next = (r - 1) as u64;
        match step_node(x, m, read) {
            Some(m2) => {
                assert(run(l, 0, m, r, read) == run(l, 1, m2, next, read));
            },
            None => {},
        }
    }
}

/// Running the first `k + 1` nodes is running the first `k` and then node
/// `k` with the steps left.
pub proof fn lemma_run_take_next(s: Seq<Node>, k: int, m: Machine, steps: u64, read: Option<i8>)
    requires
        0 <= k < s.len(),
    ensures
        match run(s.take(k), 0, m, steps, read) {
            (Outcome::Completed(r), mk) => run(s.take(k + 1), 0, m, steps, read) == run(seq![s[k]], 0, mk, r, read),
            _ => !(run(s.take(k + 1), 0, m, steps, read).0 is Completed),
        },
{
    lemma_run_concat(s.take(k), seq![s[k]], 0, m, steps, read);
    assert(s.take(k) + seq![s[k]] =~= s.take(k + 1));
}

/// A node that does not change the cell at index `c` of the tape keeps its
/// value, and the tape as long as it was.
pub proof fn lemma_step_keeps_cell(x: Node, m: Machine, read: Option<i8>, c: int)
    requires
        pointer_on_tape(m),
        step_node(x, m, read) is Some,
        !may_change(x, c - m.ptr),
    ensures
        step_node(x, m, read)->0.cells.len() == m.cells.len(),
        step_node(x, m, read)->0.ptr == m.ptr + moved_by(x),
        on_tape(m, c) ==> step_node(x, m, read)->0.cells[c] == m.cells[c],
{
    match x {
        Node::MultiplyMove { changes, .. } => {
            if m.cells[m.ptr] != 0 && on_tape(m, c) {
                let cells = multiply_cells(changes, m);
                assert(cells[c] == m.cells[c]);
            }
        },
        _ => {},
    }
}

/// Where the last change of the current cell before index `i` (found by
/// scanning back) is a set, running the first `i` nodes leaves the cell
/// holding the value that the set wrote.
pub proof fn lemma_prev_set_value(s: Seq<Node>, i: int, off: int, p: int, m: Machine, steps: u64, read: Option<i8>)
    requires
        0 <= p < i <= s.len(),
        prev_change_from(s, i, off) == Some(p),
        s[p] is SetCell,
        pointer_on_tape(m),
    ensures
        run(s.take(i), 0, m, steps, read) matches (Outcome::Completed(_), mi) ==> (on_tape(mi, mi.ptr + off)
            ==> mi.cells[mi.ptr + off] == s[p]->SetCell_amount),
    decreases i,
{
    let k = i - 1;
    lemma_run_take_next(s, k, m, steps, read);
    lemma_prev_change_bounds(s, k, off);
    lemma_prev_change_bounds(s, k, off + moved_by(s[k]));
    if let (Outcome::Completed(r), mk) = run(s.take(k), 0, m, steps, read) {
        lemma_run_keeps_pointer(s.take(k), 0, m, steps, read);
        assert(!(s[k] is Loop) && !(s[k] is Read));
        lemma_run_single(s[k], mk, r, read);
        if k != p {
            assert(!may_change(s[k], off));
            lemma_prev_set_value(s, k, off + moved_by(s[k]), p, m, steps, read);
            if step_node(s[k], mk, read) is Some {
                lemma_step_keeps_cell(s[k], mk, read, mk.ptr + off + moved_by(s[k]));
            }
        }
    }
}

/// A loop that completes leaves the current cell at zero.
pub proof fn lemma_loop_exit_zero(x: Node, m: Machine, steps: u64, read: Option<i8>)
    requires
        x is Loop,
    ensures
        run(seq![x], 0, m, steps, read) matches (Outcome::Completed(_), m2) ==> m2.cells[m2.ptr] == 0,
    decreases steps,
{
    let l = seq![x];
    assert(l[0] == x);
    if steps > 0 {
        if m.cells[m.ptr] == 0 {
            assert(run(l, 0, m, steps, read) == run(l, 1, m, (steps - 1) as u64, read));
        } else {
            let body = x->Loop_body;
            let (outcome, after) = run(body, 0, m, steps, read);
            lemma_run_completed_steps(body, 0, m, steps, read);
            if let Outcome::Completed(remaining) = outcome {
                assert(run(l, 0, m, steps, read) == run(l, 0, after, (remaining - 1) as u64, read));
                lemma_loop_exit_zero(x, after, (remaining - 1) as u64, read);
            }
        }
    }
}

/// Where the next change of a cell that is zero (found by scanning
/// forward from index `k`) is a set, that cell is still zero just before
/// the set.
pub proof fn lemma_next_set_zero(s: Seq<Node>, k: int, off: int, j: int, m: Machine, steps: u64, read: Option<i8>)
    requires
        0 <= k <= j < s.len(),
        next_change_from(s, k, off) == Some(j),
        s[j] is SetCell,
        pointer_on_tape(m),
        run(s.take(k), 0, m, steps, read) matches (Outcome::Completed(_), mk) ==> (on_tape(mk, mk.ptr + off)
            ==> mk.cells[mk.ptr + off] == 0),
    ensures
        run(s.take(j), 0, m, steps, read) matches (Outcome::Completed(_), mj) ==> (on_tape(mj, mj.ptr + s[j]->SetCell_offset)
            ==> mj.cells[mj.ptr + s[j]->SetCell_offset] == 0),
    decreases j - k,
{
    lemma_next_change_bounds(s, k + 1, off);
    lemma_next_change_bounds(s, k + 1, off - moved_by(s[k]));
    if k < j {
        let off2 = off - moved_by(s[k]);
        assert(!may_change(s[k], off));
        assert(next_change_from(s, k + 1, off2) == Some(j));
        lemma_run_take_next(s, k, m, steps, read);
        if let (Outcome::Completed(r), mk) = run(s.take(k), 0, m, steps, read) {
            lemma_run_keeps_pointer(s.take(k), 0, m, steps, read);
            lemma_run_single(s[k], mk, r, read);
            if step_node(s[k], mk, read) is Some {
                lemma_step_keeps_cell(s[k], mk, read, mk.ptr + off);
            }
        }
        lemma_next_set_zero(s, k + 1, off2, j, m, steps, read);
    }
}

/// Every completed run of `a` from a state with the pointer on the tape
/// ends on a zero cell.
pub open spec fn ends_on_zero(a: Seq<Node>) -> bool {
    forall|m: Machine, steps: u64, read: Option<i8>|
        pointer_on_tape(m) ==> (#[trigger] run(a, 0, m, steps, read) matches (Outcome::Completed(_), m2) ==> m2.cells[m2.ptr] == 0)
}

/// A loop, or a set to zero, after code that ends on a zero cell can go.
pub proof fn lemma_drop_noop_refines(a: Seq<Node>, x: Node)
    requires
        ends_on_zero(a),
        x is Loop || is_set_zero(x),
    ensures
        refines(a, a + seq![x]),
{
    let l = seq![x];
    assert(l[0] == x);
    assert forall|m: Machine, steps: u64, read: Option<i8>| pointer_on_tape(m) implies #[trigger] result_refines(
        run(a, 0, m, steps, read),
        run(a + l, 0, m, steps, read),
    ) by {
        lemma_run_concat(a, l, 0, m, steps, read);
        if let (Outcome::Completed(k), mk) = run(a, 0, m, steps, read) {
            lemma_run_keeps_pointer(a, 0, m, steps, read);
            lemma_run_completed_steps(a, 0, m, steps, read);
            assert(mk.cells[mk.ptr] == 0);
            if x is Loop {
                assert(run(l, 0, mk, k, read) == run(l, 1, mk, (k - 1) as u64, read));
            } else {
                assert(mk.cells.update(mk.ptr, 0) =~= mk.cells);
                assert(with_cells(mk, mk.cells.update(mk.ptr, 0)) == mk);
                assert(run(l, 0, mk, k, read) == run(l, 1, mk, (k - 1) as u64, read));
            }
        }
    }
}

/// The nodes kept before a dead loop end on a zero cell.
pub proof fn lemma_dead_loop_ends_on_zero(t: Seq<Node>, i: int)
    requires
        0 <= i < t.len(),
        marked(Marker::DeadLoop, t, i),
    ensures
        ends_on_zero(drop_marked(Marker::DeadLoop, t, i)),
        t[i] is Loop,
{
    let k = drop_marked(Marker::DeadLoop, t, i);
    let u = k.push(t[i]);
    let j = k.len() as int;
    assert(u.take(j) =~= k);
    assert(u[j] == t[i]);
    assert forall|m: Machine, steps: u64, read: Option<i8>| pointer_on_tape(m) implies (#[trigger] run(
        k,
        0,
        m,
        steps,
        read,
    ) matches (Outcome::Completed(_), m2) ==> m2.cells[m2.ptr] == 0) by {
        lemma_run_keeps_pointer(k, 0, m, steps, read);
        let p = previous_change(u, j)->0;
        lemma_prev_change_bounds(u, j, 0);
        lemma_prev_set_value(u, j, 0, p, m, steps, read);
    }
}

/// The code before a set to zero that is redundant ends on a zero cell.
pub proof fn lemma_marked_ends_on_zero(mk: Marker, t: Seq<Node>, i: int)
    requires
        mk == Marker::RedundantSet,
        0 <= i < t.len(),
        marked(mk, t, i),
    ensures
        ends_on_zero(t.take(i)),
        t[i] is Loop || is_set_zero(t[i]),
{
    assert forall|m: Machine, steps: u64, read: Option<i8>| pointer_on_tape(m) implies (#[trigger] run(
        t.take(i),
        0,
        m,
        steps,
        read,
    ) matches (Outcome::Completed(_), m2) ==> m2.cells[m2.ptr] == 0) by {
        lemma_run_keeps_pointer(t.take(i), 0, m, steps, read);
        {
            let w = choose|w: int|
                0 <= w < t.len() && (t[w] is Loop || t[w] is MultiplyMove) && #[trigger] next_change(t, w) == Some(i);
            lemma_next_change_bounds(t, w + 1, 0);
            lemma_run_take_next(t, w, m, steps, read);
            if let (Outcome::Completed(r), mw) = run(t.take(w), 0, m, steps, read) {
                lemma_run_keeps_pointer(t.take(w), 0, m, steps, read);
                if t[w] is Loop {
                    lemma_loop_exit_zero(t[w], mw, r, read);
                } else {
                    lemma_run_single(t[w], mw, r, read);
                    if mw.cells[mw.ptr] != 0 && multiply_targets_on_tape(t[w]->MultiplyMove_changes, mw) {
                        let cells = multiply_cells(t[w]->MultiplyMove_changes, mw);
                        assert(cells[mw.ptr] == 0);
                    }
                }
            }
            lemma_next_set_zero(t, w + 1, 0, i, m, steps, read);
        }
    }
}

/// Dropping the marked nodes from the first `n` nodes leaves code that does
/// what those `n` nodes do.
pub proof fn lemma_drop_marked_refines(mk: Marker, t: Seq<Node>, n: int)
    requires
        mk == Marker::DeadLoop || mk == Marker::RedundantSet,
        0 <= n <= t.len(),
    ensures
        refines(drop_marked(mk, t, n), t.take(n)),
    decreases n,
{
    if n == 0 {
        assert(t.take(0) =~= Seq::<Node>::empty());
        lemma_refines_refl(Seq::<Node>::empty());
    } else {
        let x = t[n - 1];
        lemma_drop_marked_refines(mk, t, n - 1);
        assert(t.take(n - 1) + seq![x] =~= t.take(n));
        if marked(mk, t, n - 1) && mk == Marker::DeadLoop {
            let a = drop_marked(mk, t, n - 1);
            lemma_dead_loop_ends_on_zero(t, n - 1);
            lemma_drop_noop_refines(a, x);
            lemma_refines_refl(seq![x]);
            lemma_refines_concat(a, t.take(n - 1), seq![x], seq![x]);
            lemma_refines_trans(a, a + seq![x], t.take(n));
        } else if marked(mk, t, n - 1) {
            lemma_marked_ends_on_zero(mk, t, n - 1);
            lemma_drop_noop_refines(t.take(n - 1), x);
            lemma_refines_trans(drop_marked(mk, t, n), t.take(n - 1), t.take(n));
        } else {
            assert(drop_marked(mk, t, n) =~= drop_marked(mk, t, n - 1) + seq![x]);
            lemma_refines_refl(seq![x]);
            lemma_refines_concat(drop_marked(mk, t, n - 1), t.take(n - 1), seq![x], seq![x]);
        }
    }
}

proof fn lemma_filter_node_refines(p: Pass, x: Node)
    requires
        p == Pass::DeadLoops || p == Pass::RedundantSets,
    ensures
        refines(seq![pass_node(p, x)], seq![x]),
    decreases x, 1int,
{
    match x {
        Node::Loop { body, position } => {
            lemma_filter_seq_refines(p, body);
            lemma_refines_loop(pass_seq(p, body), body, position);
        },
        _ => {
            lemma_refines_refl(seq![x]);
        },
    }
}

proof fn lemma_filter_seq_refines(p: Pass, s: Seq<Node>)
    requires
        p == Pass::DeadLoops || p == Pass::RedundantSets,
    ensures
        refines(pass_seq(p, s), s),
    decreases s, 0int,
{
    let each = pass_each(p, s);
    assert forall|i: int| 0 <= i < s.len() implies refines(seq![#[trigger] each[i]], seq![s[i]]) by {
        lemma_filter_node_refines(p, s[i]);
    }
    lemma_refines_pointwise(each, s);
    let mk = if p == Pass::DeadLoops { Marker::DeadLoop } else { Marker::RedundantSet };
    lemma_drop_marked_refines(mk, each, each.len() as int);
    assert(each.take(each.len() as int) =~= each);
    lemma_refines_trans(pass_seq(p, s), each, s);
}

/// Removing loops that are reached on a zero cell does not change what a
/// program does: where the given program completes, the optimised program
/// completes within the same steps, in the same state; where the given program
/// stops at a read, so does the optimised one, with the same tape, pointer
/// and outputs.
pub proof fn law_remove_dead_loops_sound(s: Seq<Node>, m: Machine, steps: u64, read: Option<i8>)
    requires
        pointer_on_tape(m),
    ensures
        result_refines(run(pass_seq(Pass::DeadLoops, s), 0, m, steps, read), run(s, 0, m, steps, read)),
{
    lemma_filter_seq_refines(Pass::DeadLoops, s);
}

/// Removing sets to zero of cells that a loop or a multiply-move has just
/// left at zero does not change what a program does, in the same sense.
pub proof fn law_remove_redundant_sets_inner_sound(s: Seq<Node>, m: Machine, steps: u64, read: Option<i8>)
    requires
        pointer_on_tape(m),
    ensures
        result_refines(run(pass_seq(Pass::RedundantSets, s), 0, m, steps, read), run(s, 0, m, steps, read)),
{
    lemma_filter_seq_refines(Pass::RedundantSets, s);
}

/// The same holds of the whole pass, which also drops a leading set to
/// zero, on a tape whose current cell starts at zero.
pub proof fn law_remove_redundant_sets_sound(s: Seq<Node>, m: Machine, steps: u64, read: Option<i8>)
    requires
        pointer_on_tape(m),
        m.cells[m.ptr] == 0,
    ensures
        result_refines(run(remove_redundant_sets_spec(s), 0, m, steps, read), run(s, 0, m, steps, read)),
{
    let reduced = pass_seq(Pass::RedundantSets, s);
    lemma_filter_seq_refines(Pass::RedundantSets, s);
    if reduced.len() > 0 && is_set_zero(reduced[0]) {
        let rest = reduced.drop_first();
        let first = seq![reduced[0]];
        assert(first + rest =~= reduced);
        lemma_run_concat(first, rest, 0, m, steps, read);
        assert(first[0] == reduced[0]);
        if steps > 0 {
            assert(m.cells.update(m.ptr, 0) =~= m.cells);
            assert(with_cells(m, m.cells.update(m.ptr, 0)) == m);
            assert(run(first, 0, m, steps, read) == run(first, 1, m, (steps - 1) as u64, read));
            if steps > 1 {
                let r = run(rest, 0, m, (steps - 1) as u64, read);
                lemma_run_completed_steps(rest, 0, m, (steps - 1) as u64, read);
                if !(r.0 is OutOfSteps) {
                    lemma_run_more_steps(rest, 0, m, (steps - 1) as u64, 1, read);
                    assert(((steps - 1) as u64 + 1) as u64 == steps);
                }
            }
        }
        assert(result_refines(run(rest, 0, m, steps, read), run(reduced, 0, m, steps, read)));
        assert(result_refines(run(reduced, 0, m, steps, read), run(s, 0, m, steps, read)));
    }
}

} // verus!
