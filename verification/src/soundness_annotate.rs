//! Marking cells known to be zero does not change what a program does. The
//! marks are sets to zero, which take steps of their own, so the marked
//! program is given twice the steps: one for each step of the given program, and one
//! for each mark, which follows a loop that took at least one.
use crate::bfir::{node_position, Node, Position};
use crate::execution::{pointer_on_tape, run, with_cells, with_start, Machine, Outcome};
use crate::peephole::{
    annotate_known_zero_spec, end_position, is_set_zero, known_zero_inner, known_zero_node, known_zero_prefix, set_zero_at, start_position,
};
use crate::soundness::{lemma_run_completed_steps, lemma_run_concat, lemma_run_keeps_pointer, lemma_run_more_steps, same_state};
use crate::soundness_filters::lemma_loop_exit_zero;
use vstd::prelude::*;

verus! {

/// What a program given twice the steps owes to a run of the given program: where the
/// given program completed, it completes too, in the same state, with at least
/// twice the steps left; where the given program stopped at a read, it stops at
/// a read too, with the same tape, pointer and outputs.
pub open spec fn result_within_double(new: (Outcome, Machine), old: (Outcome, Machine)) -> bool {
    match old.0 {
        Outcome::Completed(k) => new.0 matches Outcome::Completed(k2) && k2 >= 2 * k && new.1 == old.1,
        Outcome::ReachedRuntimeValue => new.0 == Outcome::ReachedRuntimeValue && same_state(new.1, old.1),
        _ => true,
    }
}

/// `t`, given twice the steps, does what `s` does, from every state with
/// the pointer on the tape.
pub open spec fn refines_within_double(t: Seq<Node>, s: Seq<Node>) -> bool {
    forall|m: Machine, steps: u64, read: Option<i8>|
        pointer_on_tape(m) && steps <= u64::MAX / 2 ==> #[trigger] result_within_double(
            run(t, 0, m, (2 * steps) as u64, read),
            run(s, 0, m, steps, read),
        )
}

/// More steps keep a result that owes something.
proof fn lemma_double_more_steps(t: Seq<Node>, m: Machine, given: u64, extra: u64, read: Option<i8>, old: (Outcome, Machine))
    requires
        given + extra <= u64::MAX,
        result_within_double(run(t, 0, m, given, read), old),
        old.0 is Completed || old.0 is ReachedRuntimeValue,
    ensures
        result_within_double(run(t, 0, m, (given + extra) as u64, read), old),
{
    lemma_run_completed_steps(t, 0, m, given, read);
    lemma_run_more_steps(t, 0, m, given, extra, read);
}

proof fn lemma_double_refl(s: Seq<Node>)
    ensures
        refines_within_double(s, s),
{
    assert forall|m: Machine, steps: u64, read: Option<i8>| pointer_on_tape(m) && steps <= u64::MAX / 2 implies #[trigger] result_within_double(
        run(s, 0, m, (2 * steps) as u64, read),
        run(s, 0, m, steps, read),
    ) by {
        let r = run(s, 0, m, steps, read);
        if !(r.0 is OutOfSteps) {
            lemma_run_completed_steps(s, 0, m, steps, read);
            lemma_run_more_steps(s, 0, m, steps, steps, read);
        }
    }
}

proof fn lemma_double_concat_at(a2: Seq<Node>, a: Seq<Node>, t: Seq<Node>, s: Seq<Node>, m: Machine, steps: u64, read: Option<i8>)
    requires
        refines_within_double(a2, a),
        refines_within_double(t, s),
        pointer_on_tape(m),
        steps <= u64::MAX / 2,
    ensures
        result_within_double(run(a2 + t, 0, m, (2 * steps) as u64, read), run(a + s, 0, m, steps, read)),
{
    let double = (2 * steps) as u64;
    lemma_run_concat(a, s, 0, m, steps, read);
    lemma_run_concat(a2, t, 0, m, double, read);
    let r1 = run(a, 0, m, steps, read);
    let r2 = run(a2, 0, m, double, read);
    assert(result_within_double(r2, r1));
    match r1.0 {
        Outcome::Completed(k1) => {
            let m1 = r1.1;
            let k2 = match r2.0 {
                Outcome::Completed(k) => k,
                _ => 0,
            };
            lemma_run_completed_steps(a, 0, m, steps, read);
            lemma_run_keeps_pointer(a, 0, m, steps, read);
            let old = run(s, 0, m1, k1, read);
            assert(run(a + s, 0, m, steps, read) == old);
            assert(run(a2 + t, 0, m, double, read) == run(t, 0, m1, k2, read));
            assert(result_within_double(run(t, 0, m1, (2 * k1) as u64, read), old));
            if old.0 is Completed || old.0 is ReachedRuntimeValue {
                lemma_double_more_steps(t, m1, (2 * k1) as u64, (k2 - 2 * k1) as u64, read, old);
                assert(((2 * k1) as u64 + (k2 - 2 * k1) as u64) as u64 == k2);
            }
        },
        Outcome::ReachedRuntimeValue => {
            assert(run(a + s, 0, m, steps, read) == r1);
            assert(run(a2 + t, 0, m, double, read) == r2);
        },
        _ => {},
    }
}

proof fn lemma_double_concat(a2: Seq<Node>, a: Seq<Node>, t: Seq<Node>, s: Seq<Node>)
    requires
        refines_within_double(a2, a),
        refines_within_double(t, s),
    ensures
        refines_within_double(a2 + t, a + s),
{
    assert forall|m: Machine, steps: u64, read: Option<i8>| pointer_on_tape(m) && steps <= u64::MAX / 2 implies #[trigger] result_within_double(
        run(a2 + t, 0, m, (2 * steps) as u64, read),
        run(a + s, 0, m, steps, read),
    ) by {
        lemma_double_concat_at(a2, a, t, s, m, steps, read);
    }
}

/// The same, with one more step to spare: what a loop owes, so that a mark
/// after it is paid for.
pub open spec fn result_within_double_strict(new: (Outcome, Machine), old: (Outcome, Machine)) -> bool {
    match old.0 {
        Outcome::Completed(k) => new.0 matches Outcome::Completed(k2) && k2 >= 2 * k + 1 && new.1 == old.1,
        Outcome::ReachedRuntimeValue => new.0 == Outcome::ReachedRuntimeValue && same_state(new.1, old.1),
        _ => true,
    }
}

proof fn lemma_double_loop_steps(b2: Seq<Node>, b: Seq<Node>, p: Option<Position>, m: Machine, steps: u64, read: Option<i8>)
    requires
        refines_within_double(b2, b),
        pointer_on_tape(m),
        steps <= u64::MAX / 2,
    ensures
        result_within_double_strict(
            run(seq![Node::Loop { body: b2, position: p }], 0, m, (2 * steps) as u64, read),
            run(seq![Node::Loop { body: b, position: p }], 0, m, steps, read),
        ),
    decreases steps,
{
    let n2 = Node::Loop { body: b2, position: p };
    let n = Node::Loop { body: b, position: p };
    let l2 = seq![n2];
    let l = seq![n];
    assert(l2[0] == n2 && l[0] == n);
    let double = (2 * steps) as u64;
    if steps == 0 {
    } else if m.cells[m.ptr] == 0 {
        assert(run(l, 0, m, steps, read) == run(l, 1, m, (steps - 1) as u64, read));
        assert(run(l2, 0, m, double, read) == run(l2, 1, m, (double - 1) as u64, read));
    } else {
        let rb = run(b, 0, m, steps, read);
        let rb2 = run(b2, 0, m, double, read);
        assert(result_within_double(rb2, rb));
        lemma_run_completed_steps(b, 0, m, steps, read);
        lemma_run_completed_steps(b2, 0, m, double, read);
        match rb.0 {
            Outcome::Completed(r) => {
                let r2 = match rb2.0 {
                    Outcome::Completed(k) => k,
                    _ => 0,
                };
                let after = rb.1;
                assert(rb2 == (Outcome::Completed(r2), after));
                let old = run(l, 0, after, (r - 1) as u64, read);
                assert(run(l, 0, m, steps, read) == old);
                assert(run(l2, 0, m, double, read) == run(l2, 0, after, (r2 - 1) as u64, read));
                lemma_run_keeps_pointer(b, 0, m, steps, read);
                lemma_double_loop_steps(b2, b, p, after, (r - 1) as u64, read);
                let given = (2 * (r - 1)) as u64;
                if old.0 is Completed || old.0 is ReachedRuntimeValue {
                    lemma_run_completed_steps(l2, 0, after, given, read);
                    lemma_run_more_steps(l2, 0, after, given, (r2 - 1 - given) as u64, read);
                    assert((given + (r2 - 1 - given) as u64) as u64 == (r2 - 1) as u64);
                }
            },
            Outcome::ReachedRuntimeValue => {
                let after = rb.1;
                let after2 = rb2.1;
                assert(run(l, 0, m, steps, read) == (Outcome::ReachedRuntimeValue,
                    if after.start is None { with_start(after, n) } else { after }));
                assert(run(l2, 0, m, double, read) == (Outcome::ReachedRuntimeValue,
                    if after2.start is None { with_start(after2, n2) } else { after2 }));
            },
            _ => {},
        }
    }
}

/// A loop with a marked body does what the loop does, and so does it with
/// a mark after it.
proof fn lemma_double_loop(b2: Seq<Node>, b: Seq<Node>, p: Option<Position>, q: Option<Position>)
    requires
        refines_within_double(b2, b),
    ensures
        refines_within_double(seq![Node::Loop { body: b2, position: p }], seq![Node::Loop { body: b, position: p }]),
        refines_within_double(
            seq![Node::Loop { body: b2, position: p }, set_zero_at(q)],
            seq![Node::Loop { body: b, position: p }],
        ),
{
    let n2 = Node::Loop { body: b2, position: p };
    let n = Node::Loop { body: b, position: p };
    let z = set_zero_at(q);
    let pair = seq![n2, z];
    assert forall|m: Machine, steps: u64, read: Option<i8>| pointer_on_tape(m) && steps <= u64::MAX / 2 implies #[trigger] result_within_double(
        run(seq![n2], 0, m, (2 * steps) as u64, read),
        run(seq![n], 0, m, steps, read),
    ) by {
        lemma_double_loop_steps(b2, b, p, m, steps, read);
    }
    assert forall|m: Machine, steps: u64, read: Option<i8>| pointer_on_tape(m) && steps <= u64::MAX / 2 implies #[trigger] result_within_double(
        run(pair, 0, m, (2 * steps) as u64, read),
        run(seq![n], 0, m, steps, read),
    ) by {
        let double = (2 * steps) as u64;
        lemma_double_loop_steps(b2, b, p, m, steps, read);
        assert(seq![n2] + seq![z] =~= pair);
        lemma_run_concat(seq![n2], seq![z], 0, m, double, read);
        let old = run(seq![n], 0, m, steps, read);
        if let (Outcome::Completed(k), mk) = old {
            lemma_loop_exit_zero(n, m, steps, read);
            lemma_run_keeps_pointer(seq![n], 0, m, steps, read);
            lemma_run_completed_steps(seq![n], 0, m, steps, read);
            let k2 = match run(seq![n2], 0, m, double, read).0 {
                Outcome::Completed(k2) => k2,
                _ => 0,
            };
            let lz = seq![z];
            assert(lz[0] == z);
            assert(mk.cells.update(mk.ptr, 0) =~= mk.cells);
            assert(with_cells(mk, mk.cells.update(mk.ptr, 0)) == mk);
            assert(run(lz, 0, mk, k2, read) == run(lz, 1, mk, (k2 - 1) as u64, read));
        }
    }
}

/// Marking the first `n` nodes, at every depth, keeps what they do.
proof fn lemma_known_zero_prefix(s: Seq<Node>, n: int)
    requires
        0 <= n <= s.len(),
    ensures
        refines_within_double(known_zero_prefix(s, n), s.take(n)),
    decreases s, 1int, n,
{
    if n == 0 {
        assert(s.take(0) =~= Seq::<Node>::empty());
        lemma_double_refl(Seq::<Node>::empty());
    } else {
        let x = s[n - 1];
        let before = known_zero_prefix(s, n - 1);
        lemma_known_zero_prefix(s, n - 1);
        assert(s.take(n - 1) + seq![x] =~= s.take(n));
        match x {
            Node::Loop { body, position } => {
                let q = end_position(position);
                lemma_known_zero_loop(x, q);
                let y = known_zero_node(x);
                if n < s.len() && s[n] == set_zero_at(q) {
                    assert(before.push(y) =~= before + seq![y]);
                    lemma_double_concat(before, s.take(n - 1), seq![y], seq![x]);
                } else {
                    assert(before.push(y).push(set_zero_at(q)) =~= before + seq![y, set_zero_at(q)]);
                    lemma_double_concat(before, s.take(n - 1), seq![y, set_zero_at(q)], seq![x]);
                }
            },
            _ => {
                lemma_double_refl(seq![x]);
                assert(before.push(x) =~= before + seq![x]);
                lemma_double_concat(before, s.take(n - 1), seq![x], seq![x]);
            },
        }
    }
}

proof fn lemma_known_zero_loop(x: Node, q: Option<Position>)
    requires
        x is Loop,
    ensures
        refines_within_double(seq![known_zero_node(x)], seq![x]),
        refines_within_double(seq![known_zero_node(x), set_zero_at(q)], seq![x]),
    decreases x, 0int, 0int,
{
    let body = x->Loop_body;
    lemma_known_zero_prefix(body, body.len() as int);
    assert(body.take(body.len() as int) =~= body);
    lemma_double_loop(known_zero_prefix(body, body.len() as int), body, x->Loop_position, q);
}

/// Marking cells known to be zero does not change what a program does,
/// run on a tape whose current cell starts at zero: given twice the steps
/// and one more (for the mark at the start), where the given program completes,
/// the marked program completes, in the same state, with at least twice
/// the steps left; where the given program stops at a read, so does the marked
/// one, with the same tape, pointer and outputs.
pub proof fn law_annotate_known_zero_sound(s: Seq<Node>, m: Machine, steps: u64, read: Option<i8>)
    requires
        pointer_on_tape(m),
        m.cells[m.ptr] == 0,
        steps <= u64::MAX / 2,
    ensures
        result_within_double(run(annotate_known_zero_spec(s), 0, m, (2 * steps + 1) as u64, read), run(s, 0, m, steps, read)),
{
    let inner = known_zero_inner(s);
    lemma_known_zero_prefix(s, s.len() as int);
    assert(s.take(s.len() as int) =~= s);
    let double = (2 * steps) as u64;
    let old = run(s, 0, m, steps, read);
    assert(result_within_double(run(inner, 0, m, double, read), old));
    let position = if s.len() == 0 { None } else { start_position(node_position(s[0])) };
    let z = set_zero_at(position);
    if old.0 is Completed || old.0 is ReachedRuntimeValue {
        if s.len() > 0 && s[0] == z {
            lemma_double_more_steps(inner, m, double, 1, read, old);
        } else {
            assert(steps > 0);
            let lz = seq![z];
            assert(lz[0] == z);
            lemma_run_concat(lz, inner, 0, m, (2 * steps + 1) as u64, read);
            assert(m.cells.update(m.ptr, 0) =~= m.cells);
            assert(with_cells(m, m.cells.update(m.ptr, 0)) == m);
            assert(run(lz, 0, m, (2 * steps + 1) as u64, read) == run(lz, 1, m, double, read));
        }
    }
}

} // verus!
