//! A multiply loop and the multiply-move that replaces it do the same.
use crate::bfir::{Cell, Node, Position};
use crate::execution::{multiply_cells, multiply_targets_on_tape, on_tape, pointer_on_tape, run, with_cells, Machine, Outcome};
use crate::peephole::{
    cell_changes_spec, has_effect, is_increment_or_move, is_multiply_loop_body, net_movement, pass_each, pass_node, pass_seq, Pass,
};
use crate::soundness::{
    lemma_refines_loop, lemma_refines_pointwise, lemma_refines_refl, lemma_run_completed_steps, lemma_run_without_effects, refines,
    result_refines,
};
use crate::soundness_filters::{lemma_run_single, lemma_run_take_next, step_node};
use vstd::arithmetic::div_mod::{lemma_fundamental_div_mod, lemma_fundamental_div_mod_converse_mod, lemma_mod_multiples_vanish};
use vstd::prelude::*;

verus! {

/// The cell value that an integer wraps to.
pub open spec fn crop(x: int) -> i8 {
    vstd::wrapping::i8_specs::signed_crop(x)
}

/// Wrapping addition of cells is addition, wrapped.
pub proof fn lemma_crop_add(a: i8, b: i8)
    ensures
        vstd::wrapping::i8_specs::wrapping_add(a, b) == crop(a + b),
{
    let x = a + b;
    if x >= 0 {
        lemma_fundamental_div_mod_converse_mod(x, 256, 0, x);
    } else {
        lemma_fundamental_div_mod_converse_mod(x, 256, -1, x + 256);
    }
}

/// A cell value wraps to itself.
pub proof fn lemma_crop_cell(a: i8)
    ensures
        crop(a as int) == a,
{
    if a >= 0 {
        lemma_fundamental_div_mod_converse_mod(a as int, 256, 0, a as int);
    } else {
        lemma_fundamental_div_mod_converse_mod(a as int, 256, -1, a + 256);
    }
}

/// Integers that differ by a multiple of 256 wrap to the same value.
pub proof fn lemma_crop_congruent(y: int, q: int)
    ensures
        crop(y + 256 * q) == crop(y),
{
    lemma_mod_multiples_vanish(q, y, 256);
}

/// A wrapped value differs from the integer by a multiple of 256.
pub proof fn lemma_crop_offset(x: int)
    ensures
        crop(x) == x - 256 * (x / 256) || crop(x) == x - 256 * (x / 256) - 256,
{
    lemma_fundamental_div_mod(x, 256);
}

/// Adding to a wrapped value and wrapping again is adding and wrapping once.
pub proof fn lemma_crop_add_crop(x: int, f: i8)
    ensures
        vstd::wrapping::i8_specs::wrapping_add(crop(x), f) == crop(x + f),
{
    lemma_crop_add(crop(x), f);
    lemma_crop_offset(x);
    let q = x / 256;
    if crop(x) == x - 256 * q {
        lemma_crop_congruent(x + f, -q);
        assert(x + f + 256 * (-q) == crop(x) + f);
    } else {
        lemma_crop_congruent(x + f, -q - 1);
        assert(x + f + 256 * (-q - 1) == crop(x) + f);
    }
}

/// Wrapping an inner sum changes nothing once the outer sum is wrapped.
pub proof fn lemma_crop_inner(a: int, y: int)
    ensures
        crop(a + crop(y)) == crop(a + y),
{
    lemma_crop_offset(y);
    let q = y / 256;
    if crop(y) == y - 256 * q {
        lemma_crop_congruent(a + y, -q);
        assert(a + y + 256 * (-q) == a + crop(y));
    } else {
        lemma_crop_congruent(a + y, -q - 1);
        assert(a + y + 256 * (-q - 1) == a + crop(y));
    }
}

/// The change recorded for the cell at `c`, zero where none is.
pub open spec fn change_at(changes: Map<isize, Cell>, c: int) -> Cell {
    if isize::MIN <= c <= isize::MAX && changes.contains_key(c as isize) {
        changes[c as isize]
    } else {
        0
    }
}

/// Increments and pointer increments only.
pub open spec fn plain_increments(body: Seq<Node>) -> bool {
    forall|i: int| 0 <= i < body.len() ==> is_increment_or_move(#[trigger] body[i])
}

/// Running the first `n` nodes of such a body moves the pointer by the
/// cell index that `cell_changes_spec` reaches, and adds to each cell the
/// change that it records there.
pub proof fn lemma_body_effect(b: Seq<Node>, n: int, m: Machine, steps: u64, read: Option<i8>)
    requires
        plain_increments(b),
        0 <= n <= b.len(),
        pointer_on_tape(m),
    ensures
        run(b.take(n), 0, m, steps, read) matches (Outcome::Completed(_), m2) ==> {
            let changes = cell_changes_spec(b.take(n)).0;
            let ci = cell_changes_spec(b.take(n)).1;
            &&& m2.ptr == m.ptr + ci
            &&& ci == net_movement(b.take(n))
            &&& m2.start == m.start
            &&& m2.outputs == m.outputs
            &&& m2.cells.len() == m.cells.len()
            &&& forall|c: int| on_tape(m, m.ptr + c) ==> #[trigger] m2.cells[m.ptr + c] == crop(m.cells[m.ptr + c] + change_at(changes, c))
            &&& forall|c: isize| #[trigger] changes.contains_key(c) ==> on_tape(m, m.ptr + c)
        },
    decreases n,
{
    if n == 0 {
        assert(b.take(0) =~= Seq::<Node>::empty());
        if let (Outcome::Completed(_), m2) = run(b.take(0), 0, m, steps, read) {
            assert forall|c: int| on_tape(m, m.ptr + c) implies #[trigger] m2.cells[m.ptr + c] == crop(
                m.cells[m.ptr + c] + change_at(cell_changes_spec(b.take(0)).0, c),
            ) by {
                lemma_crop_cell(m.cells[m.ptr + c]);
            }
        }
    } else {
        let k = n - 1;
        let x = b[k];
        lemma_body_effect(b, k, m, steps, read);
        lemma_run_take_next(b, k, m, steps, read);
        assert(b.take(n).drop_last() =~= b.take(k));
        assert(b.take(n).last() == x);
        let changes = cell_changes_spec(b.take(k)).0;
        let ci = cell_changes_spec(b.take(k)).1;
        if let (Outcome::Completed(r), mk) = run(b.take(k), 0, m, steps, read) {
            lemma_run_single(x, mk, r, read);
            if let (Outcome::Completed(_), m2) = run(b.take(n), 0, m, steps, read) {
                assert(step_node(x, mk, read) == Some(m2));
                match x {
                    Node::Increment { amount, offset, .. } => {
                        let t = ci + offset;
                        assert(on_tape(m, m.ptr + t));
                        assert(vstd::wrapping::isize_specs::wrapping_add(ci, offset) == t);
                        let current = if changes.contains_key(t as isize) { changes[t as isize] } else { 0i8 };
                        let changes2 = changes.insert(t as isize, vstd::wrapping::i8_specs::wrapping_add(current, amount));
                        assert(cell_changes_spec(b.take(n)).0 == changes2);
                        assert forall|c: int| on_tape(m, m.ptr + c) implies #[trigger] m2.cells[m.ptr + c] == crop(
                            m.cells[m.ptr + c] + change_at(changes2, c),
                        ) by {
                            if c == t {
                                lemma_crop_add_crop(m.cells[m.ptr + c] + current, amount);
                                lemma_crop_add(current, amount);
                                lemma_crop_inner(m.cells[m.ptr + c] as int, current + amount);
                            }
                        }
                    },
                    Node::PointerIncrement { amount, .. } => {
                        assert(vstd::wrapping::isize_specs::wrapping_add(ci, amount) == ci + amount);
                    },
                    _ => {},
                }
            }
        }
    }
}

/// A wrapped value of zero is a multiple of 256.
pub proof fn lemma_crop_zero(x: int)
    requires
        crop(x) == 0,
    ensures
        x == 256 * (x / 256),
{
    lemma_fundamental_div_mod(x, 256);
}

/// The tape after `v` passes through a multiply loop: each cell gains `v`
/// times the change that one pass makes to it.
pub open spec fn multiplied_cells(changes: Map<isize, Cell>, m: Machine, v: int) -> Seq<Cell> {
    Seq::new(m.cells.len(), |j: int| crop(m.cells[j] + v * change_at(changes, j - m.ptr)))
}

/// The machine `m` is `m0` after `i` passes through a loop body whose
/// changes are `changes`.
pub open spec fn after_passes(changes: Map<isize, Cell>, m0: Machine, m: Machine, i: int) -> bool {
    &&& m.ptr == m0.ptr
    &&& m.start == m0.start
    &&& m.outputs == m0.outputs
    &&& m.cells.len() == m0.cells.len()
    &&& forall|c: int| on_tape(m0, m0.ptr + c) ==> #[trigger] m.cells[m0.ptr + c] == crop(m0.cells[m0.ptr + c] + i * change_at(changes, c))
    &&& i > 0 ==> forall|c: isize| #[trigger] changes.contains_key(c) ==> on_tape(m0, m0.ptr + c)
}

/// A multiply loop that completes has made as many passes as its first
/// cell held (modulo 256), never waits for input, and has visited every
/// cell it changes if it made a pass.
pub proof fn lemma_multiply_loop_run(x: Node, m0: Machine, m: Machine, i: int, steps: u64, read: Option<i8>)
    requires
        x is Loop,
        is_multiply_loop_body(x->Loop_body),
        plain_increments(x->Loop_body),
        pointer_on_tape(m0),
        i >= 0,
        after_passes(cell_changes_spec(x->Loop_body).0, m0, m, i),
    ensures
        run(seq![x], 0, m, steps, read).0 != Outcome::ReachedRuntimeValue,
        run(seq![x], 0, m, steps, read) matches (Outcome::Completed(k), m2) ==> {
            &&& k < steps
            &&& m2 == with_cells(m0, multiplied_cells(cell_changes_spec(x->Loop_body).0, m0, m0.cells[m0.ptr] as int))
            &&& m0.cells[m0.ptr] != 0 ==> forall|c: isize| #[trigger] cell_changes_spec(x->Loop_body).0.contains_key(c) ==> on_tape(m0, m0.ptr + c)
        },
    decreases steps,
{
    let body = x->Loop_body;
    let changes = cell_changes_spec(body).0;
    let l = seq![x];
    assert(l[0] == x);
    let p = m0.ptr;
    let v = m0.cells[p] as int;
    assert(m.cells[p + 0] == crop(v + i * change_at(changes, 0)));
    assert(change_at(changes, 0) == -1);
    if steps > 0 {
        if m.cells[m.ptr] == 0 {
            assert(run(l, 0, m, steps, read) == run(l, 1, m, (steps - 1) as u64, read));
            assert(v + i * -1 == v - i) by (nonlinear_arith);
            lemma_crop_zero(v - i);
            let q = (v - i) / 256;
            let target = multiplied_cells(changes, m0, v);
            assert forall|j: int| 0 <= j < m.cells.len() implies m.cells[j] == target[j] by {
                let c = j - p;
                let f = change_at(changes, c) as int;
                assert(m.cells[p + c] == crop(m0.cells[p + c] + i * f));
                assert(m0.cells[j] + i * f == (m0.cells[j] + v * f) + 256 * (-q * f)) by (nonlinear_arith)
                    requires
                        v - i == 256 * q,
                ;
                lemma_crop_congruent(m0.cells[j] + v * f, -q * f);
            }
            assert(m.cells =~= target);
            if i == 0 {
                assert(v == 0);
            }
        } else {
            assert(body.take(body.len() as int) =~= body);
            lemma_body_effect(body, body.len() as int, m, steps, read);
            lemma_run_without_effects(body, 0, m, steps, read);
            assert forall|k: int| 0 <= k < body.len() implies !has_effect(#[trigger] body[k]) by {
                assert(is_increment_or_move(body[k]));
            }
            lemma_run_completed_steps(body, 0, m, steps, read);
            let (outcome, after) = run(body, 0, m, steps, read);
            if let Outcome::Completed(remaining) = outcome {
                assert(after_passes(changes, m0, after, i + 1)) by {
                    assert forall|c: int| on_tape(m0, m0.ptr + c) implies #[trigger] after.cells[m0.ptr + c] == crop(
                        m0.cells[m0.ptr + c] + (i + 1) * change_at(changes, c),
                    ) by {
                        let f = change_at(changes, c);
                        let o = m0.cells[p + c] as int;
                        assert(after.cells[m.ptr + c] == crop(m.cells[m.ptr + c] + f));
                        lemma_crop_inner(f as int, o + i * f);
                        assert(o + (i + 1) * f == f + (o + i * f)) by (nonlinear_arith);
                    }
                }
                assert(run(l, 0, m, steps, read) == run(l, 0, after, (remaining - 1) as u64, read));
                lemma_multiply_loop_run(x, m0, after, i + 1, (remaining - 1) as u64, read);
            }
        }
    }
}

/// A multiply-move does what the multiply loop it replaces does.
pub proof fn lemma_multiply_refines(body: Seq<Node>, position: Option<Position>)
    requires
        is_multiply_loop_body(body),
        plain_increments(body),
    ensures
        refines(
            seq![Node::MultiplyMove { changes: cell_changes_spec(body).0.remove(0), position }],
            seq![Node::Loop { body, position }],
        ),
{
    let x = Node::Loop { body, position };
    let changes = cell_changes_spec(body).0;
    let y = Node::MultiplyMove { changes: changes.remove(0), position };
    assert forall|m: Machine, steps: u64, read: Option<i8>| pointer_on_tape(m) implies #[trigger] result_refines(
        run(seq![y], 0, m, steps, read),
        run(seq![x], 0, m, steps, read),
    ) by {
        assert forall|c: int| on_tape(m, m.ptr + c) implies #[trigger] m.cells[m.ptr + c] == crop(
            m.cells[m.ptr + c] + 0 * change_at(changes, c),
        ) by {
            lemma_crop_cell(m.cells[m.ptr + c]);
        }
        assert(after_passes(changes, m, m, 0));
        lemma_multiply_loop_run(x, m, m, 0, steps, read);
        if let (Outcome::Completed(k), m2) = run(seq![x], 0, m, steps, read) {
            let v = m.cells[m.ptr] as int;
            let target = multiplied_cells(changes, m, v);
            let l = seq![y];
            assert(l[0] == y);
            assert(k > 0) by {
                lemma_run_completed_steps(seq![x], 0, m, steps, read);
            }
            if v == 0 {
                assert forall|j: int| 0 <= j < m.cells.len() implies target[j] == m.cells[j] by {
                    lemma_crop_cell(m.cells[j]);
                }
                assert(target =~= m.cells);
                assert(with_cells(m, target) == m);
                assert(run(l, 0, m, steps, read) == run(l, 1, m, (steps - 1) as u64, read));
            } else {
                assert(multiply_targets_on_tape(changes.remove(0), m));
                let mc = multiply_cells(changes.remove(0), m);
                assert forall|j: int| 0 <= j < m.cells.len() implies target[j] == mc[j] by {
                    let c = j - m.ptr;
                    let f = change_at(changes, c);
                    if j == m.ptr {
                        assert(change_at(changes, 0) == -1);
                        assert(v * -1 == -v) by (nonlinear_arith);
                        lemma_crop_cell(0);
                    } else if isize::MIN <= c <= isize::MAX && changes.contains_key(c as isize) {
                        lemma_crop_add(m.cells[j], vstd::wrapping::i8_specs::wrapping_mul(m.cells[m.ptr], f));
                        lemma_crop_inner(m.cells[j] as int, v * f);
                    } else {
                        lemma_crop_cell(m.cells[j]);
                        assert(v * 0 == 0) by (nonlinear_arith);
                    }
                }
                assert(target =~= mc);
                assert(run(l, 0, m, steps, read) == run(l, 1, with_cells(m, mc), (steps - 1) as u64, read));
            }
        }
    }
}

proof fn lemma_extract_node_refines(x: Node)
    ensures
        refines(seq![pass_node(Pass::ExtractMultiply, x)], seq![x]),
    decreases x, 1int,
{
    match x {
        Node::Loop { body, position } => {
            if is_multiply_loop_body(body) {
                assert(plain_increments(body));
                lemma_multiply_refines(body, position);
            } else {
                lemma_extract_seq_refines(body);
                lemma_refines_loop(pass_seq(Pass::ExtractMultiply, body), body, position);
            }
        },
        _ => {
            lemma_refines_refl(seq![x]);
        },
    }
}

pub proof fn lemma_extract_seq_refines(s: Seq<Node>)
    ensures
        refines(pass_seq(Pass::ExtractMultiply, s), s),
    decreases s, 0int,
{
    let each = pass_each(Pass::ExtractMultiply, s);
    assert forall|i: int| 0 <= i < s.len() implies refines(seq![#[trigger] each[i]], seq![s[i]]) by {
        lemma_extract_node_refines(s[i]);
    }
    lemma_refines_pointwise(each, s);
}

/// Turning multiply loops into multiply-moves does not change what a
/// program does: where the given program completes,
/// the optimised program completes within the same steps, in the same
/// state; where the given program stops at a read, so does the optimised one,
/// with the same tape, pointer and outputs.
pub proof fn law_extract_multiply_sound(s: Seq<Node>, m: Machine, steps: u64, read: Option<i8>)
    requires
        pointer_on_tape(m),
    ensures
        result_refines(run(pass_seq(Pass::ExtractMultiply, s), 0, m, steps, read), run(s, 0, m, steps, read)),
{
    lemma_extract_seq_refines(s);
}

} // verus!
