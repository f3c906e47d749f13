//! Combining increments, combining sets and removing dead loops, run a
//! second time, change nothing: each leaves a level with nothing left to
//! merge or drop, and keeps its loops as the first run made them.
use crate::bfir::Node;
use crate::peephole::{
    dead_loop_at, drop_marked, increment_push, keep_nodes, marked, merge_increments, merge_set_rules, merge_sets, merge_spec,
    not_zero_increment, pass_each, pass_node, pass_seq, pass_top, set_push, Marker, MergeRule, Pass,
};
use vstd::prelude::*;

verus! {

/// The passes whose work on a loop is only to transform its body.
pub open spec fn body_only_pass(p: Pass) -> bool {
    p == Pass::CombineIncrements || p == Pass::CombineSets || p == Pass::DeadLoops
}

/// Every loop that `pass_top` hands back is one of the nodes it was given.
pub open spec fn keeps_loops(p: Pass) -> bool {
    forall|t: Seq<Node>, j: int|
        0 <= j < pass_top(p, t).len() && (#[trigger] pass_top(p, t)[j]) is Loop ==> exists|i: int|
            0 <= i < t.len() && t[i] == pass_top(p, t)[j]
}

/// `pass_top` changes nothing the second time.
pub open spec fn top_idempotent(p: Pass) -> bool {
    forall|t: Seq<Node>| #[trigger] pass_top(p, pass_top(p, t)) == pass_top(p, t)
}

proof fn lemma_node_idempotent(p: Pass, x: Node)
    requires
        body_only_pass(p),
        keeps_loops(p),
        top_idempotent(p),
    ensures
        pass_node(p, pass_node(p, x)) == pass_node(p, x),
    decreases x, 1int,
{
    if let Node::Loop { body, position } = x {
        lemma_seq_idempotent(p, body);
    }
}

proof fn lemma_seq_idempotent(p: Pass, s: Seq<Node>)
    requires
        body_only_pass(p),
        keeps_loops(p),
        top_idempotent(p),
    ensures
        pass_seq(p, pass_seq(p, s)) == pass_seq(p, s),
    decreases s, 0int,
{
    let each = pass_each(p, s);
    let out = pass_seq(p, s);
    assert(out == pass_top(p, each));
    let again = pass_each(p, out);
    assert forall|j: int| 0 <= j < out.len() implies #[trigger] again[j] == out[j] by {
        if out[j] is Loop {
            let i = choose|i: int| 0 <= i < each.len() && each[i] == pass_top(p, each)[j];
            lemma_node_idempotent(p, s[i]);
        }
    }
    assert(again =~= out);
    assert(pass_top(p, pass_top(p, each)) == pass_top(p, each));
}

// ---------------------------------------------------------------------
// Removing dead loops.

/// No kept loop is dead, judged by the nodes kept before it.
pub open spec fn no_dead_loops(k: Seq<Node>) -> bool {
    forall|j: int| 0 <= j < k.len() ==> !dead_loop_at(#[trigger] k.take(j + 1), j)
}

proof fn lemma_drop_dead_loops_kept(t: Seq<Node>, n: int)
    requires
        0 <= n <= t.len(),
    ensures
        no_dead_loops(drop_marked(Marker::DeadLoop, t, n)),
        forall|j: int|
            0 <= j < drop_marked(Marker::DeadLoop, t, n).len() ==> exists|i: int|
                0 <= i < n && t[i] == #[trigger] drop_marked(Marker::DeadLoop, t, n)[j],
    decreases n,
{
    if n > 0 {
        lemma_drop_dead_loops_kept(t, n - 1);
        let kept = drop_marked(Marker::DeadLoop, t, n - 1);
        let x = t[n - 1];
        if !marked(Marker::DeadLoop, t, n - 1) {
            let k = kept.push(x);
            assert(drop_marked(Marker::DeadLoop, t, n) == k);
            assert forall|j: int| 0 <= j < k.len() implies !dead_loop_at(#[trigger] k.take(j + 1), j) by {
                if j < kept.len() {
                    assert(k.take(j + 1) =~= kept.take(j + 1));
                } else {
                    assert(k.take(j + 1) =~= k);
                }
            }
            assert forall|j: int| 0 <= j < k.len() implies exists|i: int| 0 <= i < n && t[i] == #[trigger] k[j] by {
                if j < kept.len() {
                    assert(k[j] == kept[j]);
                    let i = choose|i: int| 0 <= i < n - 1 && t[i] == kept[j];
                    assert(t[i] == k[j]);
                } else {
                    assert(t[n - 1] == k[j]);
                }
            }
        }
    }
}

proof fn lemma_no_dead_loops_fixed(k: Seq<Node>, n: int)
    requires
        no_dead_loops(k),
        0 <= n <= k.len(),
    ensures
        drop_marked(Marker::DeadLoop, k, n) == k.take(n),
    decreases n,
{
    if n == 0 {
        assert(k.take(0) =~= Seq::<Node>::empty());
    } else {
        lemma_no_dead_loops_fixed(k, n - 1);
        assert(k.take(n - 1).push(k[n - 1]) =~= k.take(n));
        assert(!dead_loop_at(k.take(n), n - 1));
        assert(!marked(Marker::DeadLoop, k, n - 1));
    }
}

proof fn lemma_dead_loops_top()
    ensures
        keeps_loops(Pass::DeadLoops),
        top_idempotent(Pass::DeadLoops),
{
    let p = Pass::DeadLoops;
    assert forall|t: Seq<Node>, j: int|
        0 <= j < pass_top(p, t).len() && (#[trigger] pass_top(p, t)[j]) is Loop implies exists|i: int|
            0 <= i < t.len() && t[i] == pass_top(p, t)[j] by {
        lemma_drop_dead_loops_kept(t, t.len() as int);
    }
    assert forall|t: Seq<Node>| #[trigger] pass_top(p, pass_top(p, t)) == pass_top(p, t) by {
        let k = pass_top(p, t);
        lemma_drop_dead_loops_kept(t, t.len() as int);
        lemma_no_dead_loops_fixed(k, k.len() as int);
        assert(k.take(k.len() as int) =~= k);
    }
}

/// Removing dead loops twice is doing it once: a loop that stays is not
/// dead after the nodes kept before it, and those stay too.
pub proof fn law_remove_dead_loops_idempotent(s: Seq<Node>)
    ensures
        pass_seq(Pass::DeadLoops, pass_seq(Pass::DeadLoops, s)) == pass_seq(Pass::DeadLoops, s),
{
    lemma_dead_loops_top();
    lemma_seq_idempotent(Pass::DeadLoops, s);
}

// ---------------------------------------------------------------------
// Combining sets.

/// No two neighbours make one set.
pub open spec fn sets_merged(k: Seq<Node>) -> bool {
    forall|j: int| 0 <= j && j + 1 < k.len() ==> merge_set_rules(#[trigger] k[j], k[j + 1]) is None
}

/// Every loop in `out` is `x` or one of the nodes of `k`.
pub open spec fn loops_from(out: Seq<Node>, k: Seq<Node>) -> bool {
    forall|j: int| 0 <= j < out.len() && (#[trigger] out[j]) is Loop ==> exists|i: int| 0 <= i < k.len() && k[i] == out[j]
}

proof fn lemma_set_push_merged(k: Seq<Node>, x: Node)
    requires
        sets_merged(k),
    ensures
        sets_merged(set_push(k, x)),
        loops_from(set_push(k, x), k.push(x)),
    decreases k.len(),
{
    if k.len() > 0 && merge_set_rules(k.last(), x) is Some {
        let rest = k.drop_last();
        let y = merge_set_rules(k.last(), x).unwrap();
        assert(sets_merged(rest));
        lemma_set_push_merged(rest, y);
        let out = set_push(rest, y);
        assert forall|j: int| 0 <= j < out.len() && (#[trigger] out[j]) is Loop implies exists|i: int|
            0 <= i < k.push(x).len() && k.push(x)[i] == out[j] by {
            let i = choose|i: int| 0 <= i < rest.push(y).len() && rest.push(y)[i] == out[j];
            assert(i < rest.len());
            assert(k.push(x)[i] == rest[i]);
        }
    } else {
        let out = k.push(x);
        assert forall|j: int| 0 <= j && j + 1 < out.len() implies merge_set_rules(#[trigger] out[j], out[j + 1]) is None by {
            if j + 1 < k.len() {
                assert(out[j] == k[j] && out[j + 1] == k[j + 1]);
            }
        }
        assert forall|j: int| 0 <= j < out.len() && (#[trigger] out[j]) is Loop implies exists|i: int|
            0 <= i < k.push(x).len() && k.push(x)[i] == out[j] by {
            assert(k.push(x)[j] == out[j]);
        }
    }
}

proof fn lemma_merge_sets_merged(t: Seq<Node>)
    ensures
        sets_merged(merge_sets(t)),
        loops_from(merge_sets(t), t),
    decreases t.len(),
{
    if t.len() > 0 {
        let init = t.drop_last();
        lemma_merge_sets_merged(init);
        let a = merge_sets(init);
        lemma_set_push_merged(a, t.last());
        let out = merge_sets(t);
        assert forall|j: int| 0 <= j < out.len() && (#[trigger] out[j]) is Loop implies exists|i: int|
            0 <= i < t.len() && t[i] == out[j] by {
            let i = choose|i: int| 0 <= i < a.push(t.last()).len() && a.push(t.last())[i] == out[j];
            if i < a.len() {
                assert(a[i] == a.push(t.last())[i]);
                assert(a[i] is Loop);
                let i2 = choose|i2: int| 0 <= i2 < init.len() && init[i2] == a[i];
                assert(t[i2] == init[i2]);
            } else {
                assert(t[t.len() - 1] == out[j]);
            }
        }
    }
}

proof fn lemma_merged_sets_fixed(k: Seq<Node>)
    requires
        sets_merged(k),
    ensures
        merge_sets(k) == k,
    decreases k.len(),
{
    if k.len() > 0 {
        let init = k.drop_last();
        assert(sets_merged(init)) by {
            assert forall|j: int| 0 <= j && j + 1 < init.len() implies merge_set_rules(#[trigger] init[j], init[j + 1]) is None by {
                assert(init[j] == k[j] && init[j + 1] == k[j + 1]);
            }
        }
        lemma_merged_sets_fixed(init);
        if init.len() > 0 {
            assert(init.last() == k[k.len() - 2]);
            assert(merge_set_rules(k[k.len() - 2], k[k.len() - 1]) is None);
        }
        assert(init.push(k.last()) =~= k);
    }
}

proof fn lemma_sets_top()
    ensures
        keeps_loops(Pass::CombineSets),
        top_idempotent(Pass::CombineSets),
{
    let p = Pass::CombineSets;
    assert forall|t: Seq<Node>, j: int|
        0 <= j < pass_top(p, t).len() && (#[trigger] pass_top(p, t)[j]) is Loop implies exists|i: int|
            0 <= i < t.len() && t[i] == pass_top(p, t)[j] by {
        lemma_merge_sets_merged(t);
    }
    assert forall|t: Seq<Node>| #[trigger] pass_top(p, pass_top(p, t)) == pass_top(p, t) by {
        lemma_merge_sets_merged(t);
        lemma_merged_sets_fixed(merge_sets(t));
    }
}

/// Combining sets and increments twice is doing it once: no two
/// neighbours are left that make one set.
pub proof fn law_combine_set_and_increments_idempotent(s: Seq<Node>)
    ensures
        pass_seq(Pass::CombineSets, pass_seq(Pass::CombineSets, s)) == pass_seq(Pass::CombineSets, s),
{
    lemma_sets_top();
    lemma_seq_idempotent(Pass::CombineSets, s);
}

// ---------------------------------------------------------------------
// Combining increments.

/// No two neighbours are increments of the same cell, and no node but the
/// last is an increment of zero.
pub open spec fn increments_merged(k: Seq<Node>) -> bool {
    &&& forall|j: int| 0 <= j && j + 1 < k.len() ==> merge_spec(MergeRule::Increments, #[trigger] k[j], k[j + 1]) is None
    &&& forall|j: int| 0 <= j && j + 1 < k.len() ==> not_zero_increment(#[trigger] k[j])
}

proof fn lemma_increment_push_merged(k: Seq<Node>, x: Node)
    requires
        increments_merged(k),
    ensures
        increments_merged(increment_push(k, x)),
        loops_from(increment_push(k, x), k.push(x)),
    decreases k.len(),
{
    let rest = k.drop_last();
    if k.len() > 0 {
        assert(increments_merged(rest)) by {
            assert forall|j: int| 0 <= j && j + 1 < rest.len() implies merge_spec(MergeRule::Increments, #[trigger] rest[j], rest[j + 1]) is None by {
                assert(rest[j] == k[j] && rest[j + 1] == k[j + 1]);
            }
            assert forall|j: int| 0 <= j && j + 1 < rest.len() implies not_zero_increment(#[trigger] rest[j]) by {
                assert(rest[j] == k[j]);
            }
        }
    }
    if k.len() > 0 && merge_spec(MergeRule::Increments, k.last(), x) is Some {
        let y = merge_spec(MergeRule::Increments, k.last(), x).unwrap();
        let out = rest.push(y);
        assert forall|j: int| 0 <= j && j + 1 < out.len() implies merge_spec(MergeRule::Increments, #[trigger] out[j], out[j + 1]) is None by {
            assert(out[j] == k[j]);
            if j + 1 < rest.len() {
                assert(out[j + 1] == k[j + 1]);
            } else {
                assert(out[j + 1] == y);
                assert(merge_spec(MergeRule::Increments, k[j], k[j + 1]) is None);
            }
        }
        assert forall|j: int| 0 <= j && j + 1 < out.len() implies not_zero_increment(#[trigger] out[j]) by {
            assert(out[j] == k[j]);
        }
        assert forall|j: int| 0 <= j < out.len() && (#[trigger] out[j]) is Loop implies exists|i: int|
            0 <= i < k.push(x).len() && k.push(x)[i] == out[j] by {
            assert(k.push(x)[j] == out[j]);
        }
    } else if k.len() > 0 && !not_zero_increment(k.last()) {
        lemma_increment_push_merged(rest, x);
        let out = increment_push(rest, x);
        assert forall|j: int| 0 <= j < out.len() && (#[trigger] out[j]) is Loop implies exists|i: int|
            0 <= i < k.push(x).len() && k.push(x)[i] == out[j] by {
            let i = choose|i: int| 0 <= i < rest.push(x).len() && rest.push(x)[i] == out[j];
            if i < rest.len() {
                assert(k.push(x)[i] == out[j]);
            } else {
                assert(k.push(x)[k.len() as int] == out[j]);
            }
        }
    } else {
        let out = k.push(x);
        assert forall|j: int| 0 <= j && j + 1 < out.len() implies merge_spec(MergeRule::Increments, #[trigger] out[j], out[j + 1]) is None by {
            if j + 1 < k.len() {
                assert(out[j] == k[j] && out[j + 1] == k[j + 1]);
            }
        }
        assert forall|j: int| 0 <= j && j + 1 < out.len() implies not_zero_increment(#[trigger] out[j]) by {
            assert(out[j] == k[j]);
        }
        assert forall|j: int| 0 <= j < out.len() && (#[trigger] out[j]) is Loop implies exists|i: int|
            0 <= i < k.push(x).len() && k.push(x)[i] == out[j] by {
            assert(k.push(x)[j] == out[j]);
        }
    }
}

proof fn lemma_merge_increments_merged(t: Seq<Node>)
    ensures
        increments_merged(merge_increments(t)),
        loops_from(merge_increments(t), t),
    decreases t.len(),
{
    if t.len() > 0 {
        let init = t.drop_last();
        lemma_merge_increments_merged(init);
        let a = merge_increments(init);
        lemma_increment_push_merged(a, t.last());
        let out = merge_increments(t);
        assert forall|j: int| 0 <= j < out.len() && (#[trigger] out[j]) is Loop implies exists|i: int|
            0 <= i < t.len() && t[i] == out[j] by {
            let i = choose|i: int| 0 <= i < a.push(t.last()).len() && a.push(t.last())[i] == out[j];
            if i < a.len() {
                assert(a[i] == a.push(t.last())[i]);
                assert(a[i] is Loop);
                let i2 = choose|i2: int| 0 <= i2 < init.len() && init[i2] == a[i];
                assert(t[i2] == init[i2]);
            } else {
                assert(t[t.len() - 1] == out[j]);
            }
        }
    }
}

/// Dropping nothing keeps a sequence as it is.
proof fn lemma_keep_all(s: Seq<Node>)
    requires
        forall|j: int| 0 <= j < s.len() ==> not_zero_increment(#[trigger] s[j]),
    ensures
        keep_nodes(s, |n: Node| not_zero_increment(n)) == s,
    decreases s.len(),
{
    if s.len() > 0 {
        let init = s.drop_last();
        assert forall|j: int| 0 <= j < init.len() implies not_zero_increment(#[trigger] init[j]) by {
            assert(init[j] == s[j]);
        }
        lemma_keep_all(init);
        assert(not_zero_increment(s[s.len() - 1]));
        assert(init.push(s.last()) =~= s);
    }
}

/// What `combine_increments` leaves at one level: merged, and without
/// increments of zero.
pub open spec fn increments_clean(k: Seq<Node>) -> bool {
    &&& forall|j: int| 0 <= j && j + 1 < k.len() ==> merge_spec(MergeRule::Increments, #[trigger] k[j], k[j + 1]) is None
    &&& forall|j: int| 0 <= j < k.len() ==> not_zero_increment(#[trigger] k[j])
}

proof fn lemma_increments_top_clean(t: Seq<Node>)
    ensures
        increments_clean(pass_top(Pass::CombineIncrements, t)),
        loops_from(pass_top(Pass::CombineIncrements, t), t),
{
    let k = merge_increments(t);
    lemma_merge_increments_merged(t);
    let keep = |n: Node| not_zero_increment(n);
    let out = keep_nodes(k, keep);
    assert(out == pass_top(Pass::CombineIncrements, t));
    if k.len() > 0 {
        let init = k.drop_last();
        assert forall|j: int| 0 <= j < init.len() implies not_zero_increment(#[trigger] init[j]) by {
            assert(init[j] == k[j]);
        }
        lemma_keep_all(init);
        let o = if keep(k.last()) { k } else { init };
        assert(out == o);
        assert forall|j: int| 0 <= j && j + 1 < o.len() implies merge_spec(MergeRule::Increments, #[trigger] o[j], o[j + 1]) is None by {
            assert(o[j] == k[j] && o[j + 1] == k[j + 1]);
        }
        assert forall|j: int| 0 <= j < o.len() implies not_zero_increment(#[trigger] o[j]) by {
            assert(o[j] == k[j]);
        }
        assert forall|j: int| 0 <= j < o.len() && (#[trigger] o[j]) is Loop implies exists|i: int| 0 <= i < t.len() && t[i] == o[j] by {
            assert(o[j] == k[j]);
        }
    }
}

proof fn lemma_clean_increments_fixed(k: Seq<Node>)
    requires
        increments_clean(k),
    ensures
        merge_increments(k) == k,
    decreases k.len(),
{
    if k.len() > 0 {
        let init = k.drop_last();
        assert(increments_clean(init)) by {
            assert forall|j: int| 0 <= j && j + 1 < init.len() implies merge_spec(MergeRule::Increments, #[trigger] init[j], init[j + 1]) is None by {
                assert(init[j] == k[j] && init[j + 1] == k[j + 1]);
            }
            assert forall|j: int| 0 <= j < init.len() implies not_zero_increment(#[trigger] init[j]) by {
                assert(init[j] == k[j]);
            }
        }
        lemma_clean_increments_fixed(init);
        if init.len() > 0 {
            assert(init.last() == k[k.len() - 2]);
            assert(merge_spec(MergeRule::Increments, k[k.len() - 2], k[k.len() - 1]) is None);
            assert(not_zero_increment(k[k.len() - 2]));
        }
        assert(init.push(k.last()) =~= k);
    }
}

proof fn lemma_increments_top()
    ensures
        keeps_loops(Pass::CombineIncrements),
        top_idempotent(Pass::CombineIncrements),
{
    let p = Pass::CombineIncrements;
    assert forall|t: Seq<Node>, j: int|
        0 <= j < pass_top(p, t).len() && (#[trigger] pass_top(p, t)[j]) is Loop implies exists|i: int|
            0 <= i < t.len() && t[i] == pass_top(p, t)[j] by {
        lemma_increments_top_clean(t);
    }
    assert forall|t: Seq<Node>| #[trigger] pass_top(p, pass_top(p, t)) == pass_top(p, t) by {
        let k = pass_top(p, t);
        lemma_increments_top_clean(t);
        lemma_clean_increments_fixed(k);
        assert forall|j: int| 0 <= j < k.len() implies not_zero_increment(#[trigger] k[j]) by {}
        lemma_keep_all(k);
    }
}

/// Combining increments twice is doing it once: no two increments of the
/// same cell are left next to each other, and none of zero.
pub proof fn law_combine_increments_idempotent(s: Seq<Node>)
    ensures
        pass_seq(Pass::CombineIncrements, pass_seq(Pass::CombineIncrements, s)) == pass_seq(Pass::CombineIncrements, s),
{
    lemma_increments_top();
    lemma_seq_idempotent(Pass::CombineIncrements, s);
}

} // verus!
