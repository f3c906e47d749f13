//! Sorting runs of cell changes by offset does not change what a program
//! does: changes of different cells commute, and the sort keeps the order
//! of the changes of each cell.
use crate::bfir::{Cell, Node};
use crate::execution::{pointer_on_tape, run, with_cells, with_ptr, Machine, Outcome};
use crate::peephole::{
    has_effect, insert_by_offset, is_offset_node, node_offset, shift_prefix, sort_by_offset_spec, sort_node, sort_prefix,
    sort_sequence_spec, with_offset,
};
use crate::soundness::{
    lemma_refines_concat, lemma_refines_loop, lemma_refines_refl, lemma_run_completed_steps, lemma_run_concat, lemma_run_keeps_pointer, lemma_run_without_effects, refines, result_refines,
};
use crate::soundness_filters::{lemma_run_single, lemma_run_take_next, step_node};
use vstd::prelude::*;

verus! {

/// An increment or a set.
pub open spec fn is_change(x: Node) -> bool {
    x is Increment || x is SetCell
}

/// The tape after one change, made with the pointer at `p`.
pub open spec fn apply_change(cells: Seq<Cell>, p: int, x: Node) -> Seq<Cell> {
    match x {
        Node::Increment { amount, offset, .. } => cells.update(
            p + offset,
            vstd::wrapping::i8_specs::wrapping_add(cells[p + offset], amount),
        ),
        Node::SetCell { amount, offset, .. } => cells.update(p + offset, amount),
        _ => cells,
    }
}

/// The tape after a list of changes, in order, all made with the pointer
/// at `p`.
pub open spec fn apply_changes(cells: Seq<Cell>, p: int, list: Seq<Node>) -> Seq<Cell>
    decreases list.len(),
{
    if list.len() == 0 {
        cells
    } else {
        apply_change(apply_changes(cells, p, list.drop_last()), p, list.last())
    }
}

/// Every node of the list is a change of a cell on a tape of `len` cells,
/// with the pointer at `p`.
pub open spec fn changes_on_tape(list: Seq<Node>, p: int, len: int) -> bool {
    forall|i: int| 0 <= i < list.len() ==> is_change(#[trigger] list[i]) && 0 <= p + node_offset(list[i]) < len
}

pub proof fn lemma_apply_changes_len(cells: Seq<Cell>, p: int, list: Seq<Node>)
    requires
        changes_on_tape(list, p, cells.len() as int),
    ensures
        apply_changes(cells, p, list).len() == cells.len(),
    decreases list.len(),
{
    if list.len() > 0 {
        assert(changes_on_tape(list.drop_last(), p, cells.len() as int)) by {
            assert forall|i: int| 0 <= i < list.drop_last().len() implies is_change(#[trigger] list.drop_last()[i]) && 0 <= p
                + node_offset(list.drop_last()[i]) < cells.len() by {
                assert(list.drop_last()[i] == list[i]);
            }
        }
        lemma_apply_changes_len(cells, p, list.drop_last());
        assert(is_change(list[list.len() - 1]));
    }
}

/// Changes of two different cells commute.
pub proof fn lemma_changes_commute(cells: Seq<Cell>, p: int, x: Node, y: Node)
    requires
        is_change(x),
        is_change(y),
        0 <= p + node_offset(x) < cells.len(),
        0 <= p + node_offset(y) < cells.len(),
        node_offset(x) != node_offset(y),
    ensures
        apply_change(apply_change(cells, p, x), p, y) == apply_change(apply_change(cells, p, y), p, x),
{
    assert(apply_change(apply_change(cells, p, x), p, y) =~= apply_change(apply_change(cells, p, y), p, x));
}

/// Inserting a change by offset into a list sorted by offset gives the
/// tape that appending it gives.
pub proof fn lemma_insert_by_offset_apply(cells: Seq<Cell>, p: int, sorted: Seq<Node>, x: Node)
    requires
        changes_on_tape(sorted, p, cells.len() as int),
        is_change(x),
        0 <= p + node_offset(x) < cells.len(),
    ensures
        apply_changes(cells, p, insert_by_offset(sorted, x)) == apply_changes(cells, p, sorted.push(x)),
        changes_on_tape(insert_by_offset(sorted, x), p, cells.len() as int),
        insert_by_offset(sorted, x).len() == sorted.len() + 1,
    decreases sorted.len(),
{
    let len = cells.len() as int;
    assert(sorted.push(x).drop_last() =~= sorted);
    if sorted.len() == 0 {
        assert(insert_by_offset(sorted, x) =~= seq![x]);
        assert(seq![x] =~= sorted.push(x));
    } else if node_offset(sorted.last()) <= node_offset(x) {
        assert(changes_on_tape(sorted.push(x), p, len)) by {
            assert forall|i: int| 0 <= i < sorted.push(x).len() implies is_change(#[trigger] sorted.push(x)[i]) && 0 <= p
                + node_offset(sorted.push(x)[i]) < len by {
                if i < sorted.len() {
                    assert(sorted.push(x)[i] == sorted[i]);
                }
            }
        }
    } else {
        let init = sorted.drop_last();
        let last = sorted.last();
        assert(changes_on_tape(init, p, len)) by {
            assert forall|i: int| 0 <= i < init.len() implies is_change(#[trigger] init[i]) && 0 <= p + node_offset(init[i]) < len by {
                assert(init[i] == sorted[i]);
            }
        }
        assert(is_change(last) && 0 <= p + node_offset(last) < len) by {
            assert(last == sorted[sorted.len() - 1]);
        }
        lemma_insert_by_offset_apply(cells, p, init, x);
        let ins = insert_by_offset(init, x);
        assert(ins.push(last).drop_last() =~= ins);
        assert(init.push(x).drop_last() =~= init);
        assert(init.push(last) =~= sorted);
        lemma_apply_changes_len(cells, p, init);
        lemma_changes_commute(apply_changes(cells, p, init), p, x, last);
        let base = apply_changes(cells, p, init);
        assert(apply_changes(cells, p, ins.push(last)) == apply_change(apply_changes(cells, p, ins), p, last));
        assert(apply_changes(cells, p, init.push(x)) == apply_change(base, p, x));
        assert(apply_changes(cells, p, sorted) == apply_change(base, p, last));
        assert(apply_changes(cells, p, sorted.push(x)) == apply_change(apply_changes(cells, p, sorted), p, x));
        assert(changes_on_tape(ins.push(last), p, len)) by {
            assert forall|i: int| 0 <= i < ins.push(last).len() implies is_change(#[trigger] ins.push(last)[i]) && 0 <= p
                + node_offset(ins.push(last)[i]) < len by {
                if i < ins.len() {
                    assert(ins.push(last)[i] == ins[i]);
                }
            }
        }
    }
}

/// The changes of the first `n` nodes of a run of offset nodes, each moved
/// by the pointer movement before it, in their own order; and the pointer
/// movement.
pub open spec fn unsorted_prefix(run: Seq<Node>, n: int) -> (Seq<Node>, isize)
    decreases n,
{
    if n <= 0 || n > run.len() {
        (Seq::empty(), 0)
    } else {
        let (list, shift) = unsorted_prefix(run, n - 1);
        match run[n - 1] {
            Node::PointerIncrement { amount, .. } => (list, vstd::wrapping::isize_specs::wrapping_add(shift, amount)),
            Node::Increment { .. } => (list.push(with_offset(run[n - 1], shift)), shift),
            Node::SetCell { .. } => (list.push(with_offset(run[n - 1], shift)), shift),
            _ => (list, shift),
        }
    }
}

/// The sorted changes make the changes that the unsorted ones make.
pub proof fn lemma_sorted_prefix_apply(cells: Seq<Cell>, p: int, run: Seq<Node>, n: int)
    requires
        0 <= n <= run.len(),
        changes_on_tape(unsorted_prefix(run, n).0, p, cells.len() as int),
    ensures
        apply_changes(cells, p, shift_prefix(run, n).0) == apply_changes(cells, p, unsorted_prefix(run, n).0),
        changes_on_tape(shift_prefix(run, n).0, p, cells.len() as int),
        shift_prefix(run, n).0.len() == unsorted_prefix(run, n).0.len(),
        shift_prefix(run, n).1 == unsorted_prefix(run, n).1,
    decreases n,
{
    if n > 0 {
        let (u, shift) = unsorted_prefix(run, n - 1);
        let x = run[n - 1];
        if x is Increment || x is SetCell {
            let y = with_offset(x, shift);
            assert(unsorted_prefix(run, n).0 == u.push(y));
            assert(u.push(y).drop_last() =~= u);
            assert(changes_on_tape(u, p, cells.len() as int)) by {
                assert forall|i: int| 0 <= i < u.len() implies is_change(#[trigger] u[i]) && 0 <= p + node_offset(u[i]) < cells.len() by {
                    assert(u.push(y)[i] == u[i]);
                }
            }
            assert(is_change(y) && 0 <= p + node_offset(y) < cells.len()) by {
                assert(u.push(y)[u.len() as int] == y);
            }
            lemma_sorted_prefix_apply(cells, p, run, n - 1);
            let sp = shift_prefix(run, n - 1).0;
            lemma_insert_by_offset_apply(cells, p, sp, y);
            assert(shift_prefix(run, n).0 == insert_by_offset(sp, y));
            assert(sp.push(y).drop_last() =~= sp);
            assert(apply_changes(cells, p, sp.push(y)) == apply_change(apply_changes(cells, p, sp), p, y));
            assert(apply_changes(cells, p, u.push(y)) == apply_change(apply_changes(cells, p, u), p, y));
        } else {
            lemma_sorted_prefix_apply(cells, p, run, n - 1);
        }
    }
}

/// Moving the pointer leaves fewer changes than nodes.
pub proof fn lemma_unsorted_len(run: Seq<Node>, n: int)
    requires
        0 <= n <= run.len(),
    ensures
        unsorted_prefix(run, n).0.len() <= n,
        unsorted_prefix(run, n).1 != 0 ==> unsorted_prefix(run, n).0.len() < n,
    decreases n,
{
    if n > 0 {
        lemma_unsorted_len(run, n - 1);
    }
}

/// Running the first `n` nodes of a run of offset nodes takes a step for
/// each, moves the pointer by the movement they add up to, and makes their
/// changes, each at its offset plus the movement before it.
pub proof fn lemma_offset_run(r: Seq<Node>, n: int, m: Machine, steps: u64, read: Option<i8>)
    requires
        forall|i: int| 0 <= i < r.len() ==> is_offset_node(#[trigger] r[i]),
        0 <= n <= r.len(),
        pointer_on_tape(m),
    ensures
        run(r.take(n), 0, m, steps, read) matches (Outcome::Completed(k), mn) ==> {
            let u = unsorted_prefix(r, n).0;
            let shift = unsorted_prefix(r, n).1;
            &&& k == steps - n
            &&& changes_on_tape(u, m.ptr, m.cells.len() as int)
            &&& mn == Machine { start: m.start, cells: apply_changes(m.cells, m.ptr, u), ptr: m.ptr + shift, outputs: m.outputs }
        },
    decreases n,
{
    if n == 0 {
        assert(r.take(0) =~= Seq::<Node>::empty());
    } else {
        let j = n - 1;
        let x = r[j];
        assert(is_offset_node(x));
        lemma_offset_run(r, j, m, steps, read);
        lemma_run_take_next(r, j, m, steps, read);
        let u = unsorted_prefix(r, j).0;
        let shift = unsorted_prefix(r, j).1;
        if let (Outcome::Completed(kk), mk) = run(r.take(j), 0, m, steps, read) {
            lemma_run_single(x, mk, kk, read);
            lemma_run_keeps_pointer(r.take(j), 0, m, steps, read);
            if let (Outcome::Completed(k), m2) = run(r.take(n), 0, m, steps, read) {
                assert(step_node(x, mk, read) == Some(m2));
                match x {
                    Node::PointerIncrement { amount, .. } => {
                        assert(vstd::wrapping::isize_specs::wrapping_add(shift, amount) == shift + amount);
                    },
                    _ => {
                        let y = with_offset(x, shift);
                        let o = node_offset(x);
                        assert(vstd::wrapping::isize_specs::wrapping_add(o, shift) == o + shift);
                        assert(node_offset(y) == o + shift);
                        assert(u.push(y).drop_last() =~= u);
                        assert(unsorted_prefix(r, n).0 == u.push(y));
                        assert(changes_on_tape(u.push(y), m.ptr, m.cells.len() as int)) by {
                            assert forall|i: int| 0 <= i < u.push(y).len() implies is_change(#[trigger] u.push(y)[i]) && 0 <= m.ptr
                                + node_offset(u.push(y)[i]) < m.cells.len() by {
                                if i < u.len() {
                                    assert(u.push(y)[i] == u[i]);
                                }
                            }
                        }
                        assert(m2.cells =~= apply_changes(m.cells, m.ptr, u.push(y)));
                    },
                }
            }
        }
    }
}

/// Changes of cells on the tape, made one after another, all complete.
pub proof fn lemma_changes_run(list: Seq<Node>, n: int, m: Machine, steps: u64, read: Option<i8>)
    requires
        changes_on_tape(list, m.ptr, m.cells.len() as int),
        0 <= n <= list.len(),
        n < steps,
        pointer_on_tape(m),
    ensures
        run(list.take(n), 0, m, steps, read) == (Outcome::Completed((steps - n) as u64), with_cells(
            m,
            apply_changes(m.cells, m.ptr, list.take(n)),
        )),
    decreases n,
{
    if n == 0 {
        assert(list.take(0) =~= Seq::<Node>::empty());
        assert(with_cells(m, m.cells) == m);
    } else {
        let j = n - 1;
        let x = list[j];
        lemma_changes_run(list, j, m, steps, read);
        lemma_run_take_next(list, j, m, steps, read);
        let prefix = list.take(j);
        assert(changes_on_tape(prefix, m.ptr, m.cells.len() as int)) by {
            assert forall|i: int| 0 <= i < prefix.len() implies is_change(#[trigger] prefix[i]) && 0 <= m.ptr + node_offset(
                prefix[i],
            ) < m.cells.len() by {
                assert(prefix[i] == list[i]);
            }
        }
        lemma_apply_changes_len(m.cells, m.ptr, prefix);
        let mk = with_cells(m, apply_changes(m.cells, m.ptr, prefix));
        let r = (steps - j) as u64;
        let l = seq![x];
        assert(l[0] == x);
        assert(list.take(n).drop_last() =~= prefix);
        assert(list.take(n).last() == x);
        assert(is_change(x));
        let m2 = with_cells(m, apply_changes(m.cells, m.ptr, list.take(n)));
        assert(step_node(x, mk, read) == Some(m2));
        assert(run(l, 0, mk, r, read) == run(l, 1, m2, (r - 1) as u64, read));
    }
}

/// A sorted run does what the run does.
pub proof fn lemma_sort_sequence_refines(r: Seq<Node>)
    requires
        forall|i: int| 0 <= i < r.len() ==> is_offset_node(#[trigger] r[i]),
    ensures
        refines(sort_sequence_spec(r), r),
{
    let n = r.len() as int;
    let (sorted, shift, last) = shift_prefix(r, n);
    assert(r.take(n) =~= r);
    assert forall|m: Machine, steps: u64, read: Option<i8>| pointer_on_tape(m) implies #[trigger] result_refines(
        run(sort_sequence_spec(r), 0, m, steps, read),
        run(r, 0, m, steps, read),
    ) by {
        assert forall|i: int| 0 <= i < r.len() implies !has_effect(#[trigger] r[i]) by {
            assert(is_offset_node(r[i]));
        }
        lemma_run_without_effects(r, 0, m, steps, read);
        lemma_offset_run(r, n, m, steps, read);
        if let (Outcome::Completed(k), m2) = run(r, 0, m, steps, read) {
            let u = unsorted_prefix(r, n).0;
            lemma_sorted_prefix_apply(m.cells, m.ptr, r, n);
            lemma_unsorted_len(r, n);
            lemma_run_completed_steps(r, 0, m, steps, read);
            let ns = sorted.len() as int;
            assert(sorted.take(ns) =~= sorted);
            lemma_changes_run(sorted, ns, m, steps, read);
            lemma_apply_changes_len(m.cells, m.ptr, sorted);
            let m1 = with_cells(m, apply_changes(m.cells, m.ptr, sorted));
            if shift != 0 {
                let pi = Node::PointerIncrement { amount: shift, position: match last { Some(p) => p, None => None } };
                let l = seq![pi];
                assert(l[0] == pi);
                assert(sorted.push(pi) =~= sorted + l);
                lemma_run_concat(sorted, l, 0, m, steps, read);
                let rest = (steps - ns) as u64;
                lemma_run_keeps_pointer(r, 0, m, steps, read);
                assert(m2.ptr == m.ptr + shift);
                assert(0 <= m1.ptr + shift < m1.cells.len());
                assert(rest > 1);
                assert(run(l, 0, m1, rest, read) == run(l, 1, with_ptr(m1, m1.ptr + shift), (rest - 1) as u64, read));
                assert(with_ptr(m1, m1.ptr + shift) == m2);
            } else {
                assert(m1 == m2);
            }
        }
    }
}

proof fn lemma_sort_node_refines(x: Node)
    ensures
        refines(seq![sort_node(x)], seq![x]),
    decreases x, 0int, 0int,
{
    match x {
        Node::Loop { body, position } => {
            lemma_sort_seq_refines(body);
            lemma_refines_loop(sort_by_offset_spec(body), body, position);
        },
        _ => {
            lemma_refines_refl(seq![x]);
        },
    }
}

/// After the first `n` nodes, the pending run is the offset nodes just
/// before `n`, and what is done does what the nodes before that run do.
proof fn lemma_sort_prefix_refines(s: Seq<Node>, n: int)
    requires
        0 <= n <= s.len(),
    ensures
        ({
            let (done, run) = sort_prefix(s, n);
            &&& run.len() <= n
            &&& run =~= s.subrange(n - run.len(), n)
            &&& forall|i: int| 0 <= i < run.len() ==> is_offset_node(#[trigger] run[i])
            &&& refines(done, s.take(n - run.len()))
        }),
    decreases s, 1int, n,
{
    if n == 0 {
        assert(s.take(0) =~= Seq::<Node>::empty());
        lemma_refines_refl(Seq::<Node>::empty());
    } else {
        lemma_sort_prefix_refines(s, n - 1);
        let (done, run) = sort_prefix(s, n - 1);
        let x = s[n - 1];
        let start = n - 1 - run.len();
        if is_offset_node(x) {
            assert(run.push(x) =~= s.subrange(start, n));
            assert forall|i: int| 0 <= i < run.push(x).len() implies is_offset_node(#[trigger] run.push(x)[i]) by {
                if i < run.len() {
                    assert(run.push(x)[i] == run[i]);
                }
            }
        } else {
            lemma_sort_sequence_refines(run);
            lemma_refines_concat(done, s.take(start), sort_sequence_spec(run), run);
            lemma_sort_node_refines(x);
            lemma_refines_concat(done + sort_sequence_spec(run), s.take(start) + run, seq![sort_node(x)], seq![x]);
            assert((done + sort_sequence_spec(run)).push(sort_node(x)) =~= (done + sort_sequence_spec(run)) + seq![sort_node(x)]);
            assert(s.take(start) + run + seq![x] =~= s.take(n));
            assert(s.subrange(n, n) =~= Seq::<Node>::empty());
        }
    }
}

proof fn lemma_sort_seq_refines(s: Seq<Node>)
    ensures
        refines(sort_by_offset_spec(s), s),
    decreases s, 2int, 0int,
{
    let n = s.len() as int;
    lemma_sort_prefix_refines(s, n);
    let (done, run) = sort_prefix(s, n);
    lemma_sort_sequence_refines(run);
    lemma_refines_concat(done, s.take(n - run.len()), sort_sequence_spec(run), run);
    assert(s.take(n - run.len()) + run =~= s);
}

/// Sorting runs of cell changes by offset does not change what a program
/// does: where the given program completes, the sorted program completes
/// within the same steps, in the same state; where the given program stops at a
/// read, so does the sorted one, with the same tape, pointer and outputs.
pub proof fn law_sort_by_offset_sound(s: Seq<Node>, m: Machine, steps: u64, read: Option<i8>)
    requires
        pointer_on_tape(m),
    ensures
        result_refines(run(sort_by_offset_spec(s), 0, m, steps, read), run(s, 0, m, steps, read)),
{
    lemma_sort_seq_refines(s);
}

} // verus!
