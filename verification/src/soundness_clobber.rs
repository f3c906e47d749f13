//! Dropping a change that a read overwrites does not change what a program
//! does. Where the program stops to wait for input, the dropped change is
//! missing from the tape, so at such a stop only the pointer and what was
//! written out are the same.
use crate::bfir::{Node, Position};
use crate::cell_scan::{lemma_prev_change_bounds, prev_change_from};
use crate::execution::{multiply_cells, multiply_targets_on_tape, pointer_on_tape, run, with_cells, with_start, Machine, Outcome};
use crate::peephole::{clobbered_at, clobbers, drop_marked, marked, has_effect, pass_each, pass_node, pass_seq, Marker, Pass};
use crate::soundness::{
    lemma_run_completed_steps, lemma_run_concat, lemma_run_keeps_pointer, lemma_run_more_steps, lemma_run_without_effects,
};
use crate::soundness_filters::{lemma_run_single, lemma_run_take_next, may_change, moved_by, step_node};
use vstd::prelude::*;

verus! {

/// What a replacement owes to a run of the given program: where the given program
/// completed, it completes too, in the same state and with at least as many
/// steps left; where the given program stopped at a read, it stops at a read
/// too, with the same pointer and outputs.
pub open spec fn result_refines_outputs(new: (Outcome, Machine), old: (Outcome, Machine)) -> bool {
    match old.0 {
        Outcome::Completed(k) => new.0 matches Outcome::Completed(k2) && k2 >= k && new.1 == old.1,
        Outcome::ReachedRuntimeValue => new.0 == Outcome::ReachedRuntimeValue && new.1.ptr == old.1.ptr && new.1.outputs
            == old.1.outputs,
        _ => true,
    }
}

/// `t` does what `s` does in that sense, from every state with the pointer
/// on the tape.
pub open spec fn refines_outputs(t: Seq<Node>, s: Seq<Node>) -> bool {
    forall|m: Machine, steps: u64, read: Option<i8>|
        pointer_on_tape(m) ==> #[trigger] result_refines_outputs(run(t, 0, m, steps, read), run(s, 0, m, steps, read))
}

pub proof fn lemma_outputs_refl(s: Seq<Node>)
    ensures
        refines_outputs(s, s),
{
}

proof fn lemma_outputs_concat_at(a2: Seq<Node>, a: Seq<Node>, t: Seq<Node>, s: Seq<Node>, m: Machine, steps: u64, read: Option<i8>)
    requires
        refines_outputs(a2, a),
        refines_outputs(t, s),
        pointer_on_tape(m),
    ensures
        result_refines_outputs(run(a2 + t, 0, m, steps, read), run(a + s, 0, m, steps, read)),
{
    lemma_run_concat(a, s, 0, m, steps, read);
    lemma_run_concat(a2, t, 0, m, steps, read);
    let r1 = run(a, 0, m, steps, read);
    let r2 = run(a2, 0, m, steps, read);
    assert(result_refines_outputs(r2, r1));
    match r1.0 {
        Outcome::Completed(k1) => {
            let m1 = r1.1;
            let k2 = match r2.0 {
                Outcome::Completed(k) => k,
                _ => 0,
            };
            assert(r2 == (Outcome::Completed(k2), m1));
            assert(run(a + s, 0, m, steps, read) == run(s, 0, m1, k1, read));
            assert(run(a2 + t, 0, m, steps, read) == run(t, 0, m1, k2, read));
            lemma_run_keeps_pointer(a, 0, m, steps, read);
            let rs = run(s, 0, m1, k1, read);
            let rt = run(t, 0, m1, k1, read);
            assert(result_refines_outputs(rt, rs));
            lemma_run_completed_steps(t, 0, m1, k1, read);
            if !(rt.0 is OutOfSteps) {
                lemma_run_more_steps(t, 0, m1, k1, (k2 - k1) as u64, read);
                assert((k1 + (k2 - k1) as u64) as u64 == k2);
            }
        },
        Outcome::ReachedRuntimeValue => {
            assert(run(a + s, 0, m, steps, read) == r1);
            assert(run(a2 + t, 0, m, steps, read) == r2);
        },
        _ => {},
    }
}

pub proof fn lemma_outputs_concat(a2: Seq<Node>, a: Seq<Node>, t: Seq<Node>, s: Seq<Node>)
    requires
        refines_outputs(a2, a),
        refines_outputs(t, s),
    ensures
        refines_outputs(a2 + t, a + s),
{
    assert forall|m: Machine, steps: u64, read: Option<i8>| pointer_on_tape(m) implies #[trigger] result_refines_outputs(
        run(a2 + t, 0, m, steps, read),
        run(a + s, 0, m, steps, read),
    ) by {
        lemma_outputs_concat_at(a2, a, t, s, m, steps, read);
    }
}

pub proof fn lemma_outputs_trans(u: Seq<Node>, t: Seq<Node>, s: Seq<Node>)
    requires
        refines_outputs(u, t),
        refines_outputs(t, s),
    ensures
        refines_outputs(u, s),
{
    assert forall|m: Machine, steps: u64, read: Option<i8>| pointer_on_tape(m) implies #[trigger] result_refines_outputs(
        run(u, 0, m, steps, read),
        run(s, 0, m, steps, read),
    ) by {
        assert(result_refines_outputs(run(u, 0, m, steps, read), run(t, 0, m, steps, read)));
        assert(result_refines_outputs(run(t, 0, m, steps, read), run(s, 0, m, steps, read)));
    }
}

pub proof fn lemma_outputs_pointwise(t: Seq<Node>, s: Seq<Node>)
    requires
        t.len() == s.len(),
        forall|i: int| 0 <= i < s.len() ==> refines_outputs(seq![#[trigger] t[i]], seq![s[i]]),
    ensures
        refines_outputs(t, s),
    decreases s.len(),
{
    if s.len() == 0 {
        assert(t =~= s);
    } else {
        let t1 = t.drop_first();
        let s1 = s.drop_first();
        assert forall|i: int| 0 <= i < s1.len() implies refines_outputs(seq![#[trigger] t1[i]], seq![s1[i]]) by {
            assert(t1[i] == t[i + 1] && s1[i] == s[i + 1]);
        }
        lemma_outputs_pointwise(t1, s1);
        assert(refines_outputs(seq![t[0]], seq![s[0]]));
        lemma_outputs_concat(seq![t[0]], seq![s[0]], t1, s1);
        assert(seq![t[0]] + t1 =~= t);
        assert(seq![s[0]] + s1 =~= s);
    }
}

proof fn lemma_outputs_loop_steps(b2: Seq<Node>, b: Seq<Node>, p: Option<Position>, m: Machine, steps: u64, read: Option<i8>)
    requires
        refines_outputs(b2, b),
        pointer_on_tape(m),
    ensures
        result_refines_outputs(
            run(seq![Node::Loop { body: b2, position: p }], 0, m, steps, read),
            run(seq![Node::Loop { body: b, position: p }], 0, m, steps, read),
        ),
    decreases steps,
{
    let n2 = Node::Loop { body: b2, position: p };
    let n = Node::Loop { body: b, position: p };
    let l2 = seq![n2];
    let l = seq![n];
    assert(l2[0] == n2 && l[0] == n);
    if steps == 0 {
    } else if m.cells[m.ptr] == 0 {
        assert(run(l, 0, m, steps, read) == run(l, 1, m, (steps - 1) as u64, read));
        assert(run(l2, 0, m, steps, read) == run(l2, 1, m, (steps - 1) as u64, read));
    } else {
        let rb = run(b, 0, m, steps, read);
        let rb2 = run(b2, 0, m, steps, read);
        assert(result_refines_outputs(rb2, rb));
        lemma_run_completed_steps(b, 0, m, steps, read);
        lemma_run_completed_steps(b2, 0, m, steps, read);
        match rb.0 {
            Outcome::Completed(r) => {
                let r2 = match rb2.0 {
                    Outcome::Completed(k) => k,
                    _ => 0,
                };
                let after = rb.1;
                assert(rb2 == (Outcome::Completed(r2), after));
                assert(run(l, 0, m, steps, read) == run(l, 0, after, (r - 1) as u64, read));
                assert(run(l2, 0, m, steps, read) == run(l2, 0, after, (r2 - 1) as u64, read));
                lemma_run_keeps_pointer(b, 0, m, steps, read);
                lemma_outputs_loop_steps(b2, b, p, after, (r - 1) as u64, read);
                let rl2 = run(l2, 0, after, (r - 1) as u64, read);
                lemma_run_completed_steps(l2, 0, after, (r - 1) as u64, read);
                if !(rl2.0 is OutOfSteps) {
                    lemma_run_more_steps(l2, 0, after, (r - 1) as u64, (r2 - r) as u64, read);
                    assert(((r - 1) as u64 + (r2 - r) as u64) as u64 == (r2 - 1) as u64);
                }
            },
            Outcome::ReachedRuntimeValue => {
                let after = rb.1;
                let after2 = rb2.1;
                assert(run(l, 0, m, steps, read) == (Outcome::ReachedRuntimeValue,
                    if after.start is None { with_start(after, n) } else { after }));
                assert(run(l2, 0, m, steps, read) == (Outcome::ReachedRuntimeValue,
                    if after2.start is None { with_start(after2, n2) } else { after2 }));
            },
            _ => {},
        }
    }
}

pub proof fn lemma_outputs_loop(b2: Seq<Node>, b: Seq<Node>, p: Option<Position>)
    requires
        refines_outputs(b2, b),
    ensures
        refines_outputs(seq![Node::Loop { body: b2, position: p }], seq![Node::Loop { body: b, position: p }]),
{
    assert forall|m: Machine, steps: u64, read: Option<i8>| pointer_on_tape(m) implies #[trigger] result_refines_outputs(
        run(seq![Node::Loop { body: b2, position: p }], 0, m, steps, read),
        run(seq![Node::Loop { body: b, position: p }], 0, m, steps, read),
    ) by {
        lemma_outputs_loop_steps(b2, b, p, m, steps, read);
    }
}

/// What the scan back for the last change of a cell passes over: no read
/// and no loop; and what it finds: an increment, a set or a multiply-move.
pub proof fn lemma_prev_change_path(s: Seq<Node>, i: int, off: int)
    ensures
        prev_change_from(s, i, off) matches Some(p) ==> {
            &&& s[p] is Increment || s[p] is SetCell || s[p] is MultiplyMove
            &&& forall|k: int| p < k < i ==> !(#[trigger] s[k] is Read) && !(s[k] is Loop)
        },
    decreases i,
{
    if 0 < i <= s.len() {
        lemma_prev_change_path(s, i - 1, off);
        lemma_prev_change_path(s, i - 1, off + moved_by(s[i - 1]));
        lemma_prev_change_bounds(s, i - 1, off);
        lemma_prev_change_bounds(s, i - 1, off + moved_by(s[i - 1]));
    }
}

/// Two machines that differ at most in the cell at index `c`.
pub open spec fn agree_except(a: Machine, b: Machine, c: int) -> bool {
    &&& a.ptr == b.ptr
    &&& a.outputs == b.outputs
    &&& a.start == b.start
    &&& a.cells.len() == b.cells.len()
    &&& forall|j: int| 0 <= j < a.cells.len() && j != c ==> #[trigger] a.cells[j] == b.cells[j]
}

/// A node that neither reads, writes out nor changes the cell at `c` does
/// the same on two machines that differ only there.
pub proof fn lemma_step_agree(x: Node, a: Machine, b: Machine, c: int, read: Option<i8>)
    requires
        agree_except(a, b, c),
        !(x is Loop || x is Read || x is Write),
        !may_change(x, c - a.ptr),
        pointer_on_tape(a),
    ensures
        (step_node(x, a, read) is Some) == (step_node(x, b, read) is Some),
        step_node(x, a, read) is Some ==> agree_except(step_node(x, a, read)->0, step_node(x, b, read)->0, c),
{
    match x {
        Node::MultiplyMove { changes, .. } => {
            assert(a.cells[a.ptr] == b.cells[b.ptr]);
            if a.cells[a.ptr] != 0 && multiply_targets_on_tape(changes, a) {
                let ca = multiply_cells(changes, a);
                let cb = multiply_cells(changes, b);
                assert forall|j: int| 0 <= j < ca.len() && j != c implies #[trigger] ca[j] == cb[j] by {
                    if j != a.ptr {
                        assert(a.cells[j] == b.cells[j]);
                    }
                }
            }
        },
        _ => {},
    }
}

/// Running the nodes from a change that a read overwrites up to just
/// before index `i`, with and without the change: where the run with it
/// completes, the run without it completes with a step more to spare, and
/// the two differ only in the changed cell, which is at `off` from the
/// pointer.
proof fn lemma_clobber_run(t: Seq<Node>, p: int, i: int, off: int, m: Machine, steps: u64, read: Option<i8>)
    requires
        0 <= p < i <= t.len(),
        prev_change_from(t, i, off) == Some(p),
        t[p] is Increment || t[p] is SetCell,
        forall|w: int| p < w < i ==> !(#[trigger] t[w] is Write),
        pointer_on_tape(m),
    ensures
        run(t.subrange(p, i), 0, m, steps, read) matches (Outcome::Completed(k), mo) ==> (run(t.subrange(p + 1, i), 0, m, steps, read)
            matches (Outcome::Completed(k2), mn) && k2 == k + 1 && agree_except(mo, mn, mo.ptr + off)),
    decreases i,
{
    lemma_prev_change_bounds(t, i - 1, off);
    lemma_prev_change_bounds(t, i - 1, off + moved_by(t[i - 1]));
    if i == p + 1 {
        let x = t[p];
        assert(t.subrange(p, i) =~= seq![x]);
        assert(t.subrange(p + 1, i) =~= Seq::<Node>::empty());
        lemma_run_single(x, m, steps, read);
        lemma_run_completed_steps(seq![x], 0, m, steps, read);
    } else {
        let x = t[i - 1];
        assert(!(x is Loop) && !(x is Read));
        assert(!may_change(x, off));
        let off2 = off + moved_by(x);
        lemma_clobber_run(t, p, i - 1, off2, m, steps, read);
        let so = t.subrange(p, i);
        let sn = t.subrange(p + 1, i);
        assert(so.take(i - 1 - p) =~= t.subrange(p, i - 1));
        assert(sn.take(i - 2 - p) =~= t.subrange(p + 1, i - 1));
        assert(so[i - 1 - p] == x && sn[i - 2 - p] == x);
        lemma_run_take_next(so, i - 1 - p, m, steps, read);
        lemma_run_take_next(sn, i - 2 - p, m, steps, read);
        assert(so.take(i - p) =~= so && sn.take(i - 1 - p) =~= sn);
        if let (Outcome::Completed(k1), mo1) = run(t.subrange(p, i - 1), 0, m, steps, read) {
            let (_, mn1) = run(t.subrange(p + 1, i - 1), 0, m, steps, read);
            lemma_run_keeps_pointer(t.subrange(p, i - 1), 0, m, steps, read);
            lemma_run_single(x, mo1, k1, read);
            if let (Outcome::Completed(k), mo) = run(so, 0, m, steps, read) {
                assert(!(x is Write));
                lemma_step_agree(x, mo1, mn1, mo1.ptr + off2, read);
                let mn = step_node(x, mn1, read)->0;
                let l = seq![x];
                assert(l[0] == x);
                assert(run(l, 0, mn1, (k1 + 1) as u64, read) == run(l, 1, mn, k1, read));
            }
        }
    }
}

proof fn lemma_clobber_block_at(t: Seq<Node>, r: int, p: int, m: Machine, steps: u64, read: Option<i8>)
    requires
        0 <= p < r < t.len(),
        clobbers(t, r, p),
        t[p] is Increment || t[p] is SetCell,
        forall|k: int| p < k < r ==> !(#[trigger] t[k] is Read) && !(t[k] is Loop),
        pointer_on_tape(m),
    ensures
        result_refines_outputs(run(t.subrange(p + 1, r + 1), 0, m, steps, read), run(t.subrange(p, r + 1), 0, m, steps, read)),
{
    let so = t.subrange(p, r + 1);
    let sn = t.subrange(p + 1, r + 1);
    let rd = t[r];
    let prefix = t.subrange(p, r);
    assert(so.take(r - p) =~= prefix);
    assert(sn.take(r - p - 1) =~= t.subrange(p + 1, r));
    assert(so[r - p] == rd && sn[r - p - 1] == rd);
    assert(so.take(r - p + 1) =~= so && sn.take(r - p) =~= sn);
    lemma_run_take_next(so, r - p, m, steps, read);
    lemma_run_take_next(sn, r - p - 1, m, steps, read);
    lemma_clobber_run(t, p, r, 0, m, steps, read);
    assert forall|k: int| 0 <= k < prefix.len() implies !has_effect(#[trigger] prefix[k]) by {
        assert(prefix[k] == t[p + k]);
        if k > 0 {
            assert(!(t[p + k] is Write));
        }
    }
    lemma_run_without_effects(prefix, 0, m, steps, read);
    assert(prefix + seq![rd] =~= so);
    lemma_run_concat(prefix, seq![rd], 0, m, steps, read);
    if let (Outcome::Completed(k), mo) = run(prefix, 0, m, steps, read) {
        let mn = run(t.subrange(p + 1, r), 0, m, steps, read).1;
        assert(agree_except(mo, mn, mo.ptr));
        let l = seq![rd];
        assert(l[0] == rd);
        lemma_run_completed_steps(prefix, 0, m, steps, read);
        lemma_run_keeps_pointer(prefix, 0, m, steps, read);
        match read {
            Some(v) => {
                let a = with_cells(mo, mo.cells.update(mo.ptr, v));
                let b = with_cells(mn, mn.cells.update(mn.ptr, v));
                assert forall|j: int| 0 <= j < a.cells.len() implies a.cells[j] == b.cells[j] by {
                    if j != mo.ptr {
                        assert(mo.cells[j] == mn.cells[j]);
                    }
                }
                assert(a.cells =~= b.cells);
                assert(a == b);
                assert(run(l, 0, mo, k, read) == run(l, 1, a, (k - 1) as u64, read));
                assert(run(l, 0, mn, (k + 1) as u64, read) == run(l, 1, b, k, read));
            },
            None => {
                assert(run(l, 0, mo, k, read) == (Outcome::ReachedRuntimeValue, with_start(mo, rd)));
                assert(run(l, 0, mn, (k + 1) as u64, read) == (Outcome::ReachedRuntimeValue, with_start(mn, rd)));
            },
        }
    }
}

/// Dropping a change that a read overwrites, from the change to the read.
proof fn lemma_clobber_block(t: Seq<Node>, r: int, p: int)
    requires
        0 <= r < t.len(),
        clobbers(t, r, p),
    ensures
        0 <= p < r,
        refines_outputs(t.subrange(p + 1, r + 1), t.subrange(p, r + 1)),
{
    lemma_prev_change_bounds(t, r, 0);
    lemma_prev_change_path(t, r, 0);
    assert forall|m: Machine, steps: u64, read: Option<i8>| pointer_on_tape(m) implies #[trigger] result_refines_outputs(
        run(t.subrange(p + 1, r + 1), 0, m, steps, read),
        run(t.subrange(p, r + 1), 0, m, steps, read),
    ) by {
        lemma_clobber_block_at(t, r, p, m, steps, read);
    }
}

/// The change, among the first `n` nodes, that a read at or after `n` will
/// overwrite and that is dropped: the last one dropped, unless a read has
/// come since.
pub open spec fn pending_clobber(t: Seq<Node>, n: int) -> Option<int>
    decreases n,
{
    if n <= 0 || n > t.len() {
        None
    } else if clobbered_at(t, n - 1) {
        Some(n - 1)
    } else if t[n - 1] is Read {
        None
    } else {
        pending_clobber(t, n - 1)
    }
}

proof fn lemma_pending_clobber(t: Seq<Node>, n: int)
    ensures
        pending_clobber(t, n) matches Some(p) ==> {
            &&& 0 <= p < n <= t.len()
            &&& clobbered_at(t, p)
            &&& forall|k: int| p < k < n ==> !(#[trigger] t[k] is Read)
        },
    decreases n,
{
    if 0 < n <= t.len() {
        lemma_pending_clobber(t, n - 1);
    }
}

/// The read that overwrites a change is the first read after it.
proof fn lemma_clobber_read(t: Seq<Node>, r: int, p: int)
    requires
        0 <= r < t.len(),
        clobbers(t, r, p),
    ensures
        0 <= p < r,
        t[p] is Increment || t[p] is SetCell,
        forall|k: int| p < k < r ==> !(#[trigger] t[k] is Read),
{
    lemma_prev_change_bounds(t, r, 0);
    lemma_prev_change_path(t, r, 0);
}

/// What the first `n` nodes without the dropped changes do: what the
/// first `n` nodes do, or, where a dropped change is pending, what the
/// nodes up to its read do once that read is appended.
pub open spec fn clobber_prefix_claim(t: Seq<Node>, n: int) -> bool {
    match pending_clobber(t, n) {
        None => refines_outputs(drop_marked(Marker::Clobbered, t, n), t.take(n)),
        Some(p) => forall|r: int|
            0 <= r < t.len() && #[trigger] clobbers(t, r, p) ==> refines_outputs(
                drop_marked(Marker::Clobbered, t, n) + t.subrange(n, r + 1),
                t.take(r + 1),
            ),
    }
}

proof fn lemma_clobber_prefix(t: Seq<Node>, n: int)
    requires
        0 <= n <= t.len(),
    ensures
        clobber_prefix_claim(t, n),
    decreases n,
{
    if n == 0 {
        assert(t.take(0) =~= Seq::<Node>::empty());
        lemma_outputs_refl(Seq::<Node>::empty());
    } else {
        let x = t[n - 1];
        let before = drop_marked(Marker::Clobbered, t, n - 1);
        lemma_clobber_prefix(t, n - 1);
        lemma_pending_clobber(t, n - 1);
        assert(t.take(n - 1) + seq![x] =~= t.take(n));
        assert(marked(Marker::Clobbered, t, n - 1) == clobbered_at(t, n - 1));
        if clobbered_at(t, n - 1) {
            let r0 = choose|r: int| 0 <= r < t.len() && #[trigger] clobbers(t, r, n - 1);
            lemma_clobber_read(t, r0, n - 1);
            if let Some(q) = pending_clobber(t, n - 1) {
                let rq = choose|r: int| 0 <= r < t.len() && #[trigger] clobbers(t, r, q);
                lemma_clobber_read(t, rq, q);
                if rq < n - 1 {
                    assert(t[rq] is Read);
                }
                assert(rq != n - 1);
                if r0 < rq {
                    assert(t[r0] is Read);
                } else if r0 > rq {
                    assert(t[rq] is Read);
                }
                assert(false);
            }
            assert forall|r: int| 0 <= r < t.len() && #[trigger] clobbers(t, r, n - 1) implies refines_outputs(
                drop_marked(Marker::Clobbered, t, n) + t.subrange(n, r + 1),
                t.take(r + 1),
            ) by {
                lemma_clobber_block(t, r, n - 1);
                lemma_outputs_concat(before, t.take(n - 1), t.subrange(n, r + 1), t.subrange(n - 1, r + 1));
                assert(t.take(n - 1) + t.subrange(n - 1, r + 1) =~= t.take(r + 1));
            }
        } else {
            assert(drop_marked(Marker::Clobbered, t, n) == before.push(x));
            match pending_clobber(t, n - 1) {
                None => {
                    lemma_outputs_refl(seq![x]);
                    lemma_outputs_concat(before, t.take(n - 1), seq![x], seq![x]);
                    assert(before.push(x) =~= before + seq![x]);
                },
                Some(q) => {
                    if x is Read {
                        let rq = choose|r: int| 0 <= r < t.len() && #[trigger] clobbers(t, r, q);
                        lemma_clobber_read(t, rq, q);
                        if rq < n - 1 {
                            assert(t[rq] is Read);
                        } else if rq > n - 1 {
                            assert(t[n - 1] is Read);
                        }
                        assert(rq == n - 1);
                        assert(before + t.subrange(n - 1, n) =~= before.push(x));
                    } else {
                        assert forall|r: int| 0 <= r < t.len() && #[trigger] clobbers(t, r, q) implies refines_outputs(
                            drop_marked(Marker::Clobbered, t, n) + t.subrange(n, r + 1),
                            t.take(r + 1),
                        ) by {
                            lemma_clobber_read(t, r, q);
                            if r < n - 1 {
                                assert(t[r] is Read);
                            }
                            assert(r != n - 1);
                            assert(before.push(x) + t.subrange(n, r + 1) =~= before + t.subrange(n - 1, r + 1));
                        }
                    }
                },
            }
        }
    }
}

/// Dropping the changes that reads overwrite, at one level.
proof fn lemma_clobber_top(t: Seq<Node>)
    ensures
        refines_outputs(drop_marked(Marker::Clobbered, t, t.len() as int), t),
{
    let n = t.len() as int;
    lemma_clobber_prefix(t, n);
    lemma_pending_clobber(t, n);
    if let Some(q) = pending_clobber(t, n) {
        let rq = choose|r: int| 0 <= r < t.len() && #[trigger] clobbers(t, r, q);
        lemma_clobber_read(t, rq, q);
        assert(t[rq] is Read);
    }
    assert(t.take(n) =~= t);
}

proof fn lemma_clobber_node_refines(x: Node)
    ensures
        refines_outputs(seq![pass_node(Pass::ReadClobber, x)], seq![x]),
    decreases x, 1int,
{
    match x {
        Node::Loop { body, position } => {
            lemma_clobber_seq_refines(body);
            lemma_outputs_loop(pass_seq(Pass::ReadClobber, body), body, position);
        },
        _ => {
            lemma_outputs_refl(seq![x]);
        },
    }
}

proof fn lemma_clobber_seq_refines(s: Seq<Node>)
    ensures
        refines_outputs(pass_seq(Pass::ReadClobber, s), s),
    decreases s, 0int,
{
    let each = pass_each(Pass::ReadClobber, s);
    assert forall|i: int| 0 <= i < s.len() implies refines_outputs(seq![#[trigger] each[i]], seq![s[i]]) by {
        lemma_clobber_node_refines(s[i]);
    }
    lemma_outputs_pointwise(each, s);
    lemma_clobber_top(each);
    lemma_outputs_trans(pass_seq(Pass::ReadClobber, s), each, s);
}

/// Dropping changes that a read overwrites before anything is written out
/// does not change what a program does: where the given program completes, the
/// optimised program completes within the same steps, in the same state;
/// where the given program stops at a read, so does the optimised one, with the
/// same pointer and outputs (the dropped change is missing from the tape).
pub proof fn law_remove_read_clobber_sound(s: Seq<Node>, m: Machine, steps: u64, read: Option<i8>)
    requires
        pointer_on_tape(m),
    ensures
        result_refines_outputs(run(pass_seq(Pass::ReadClobber, s), 0, m, steps, read), run(s, 0, m, steps, read)),
{
    lemma_clobber_seq_refines(s);
}

} // verus!
