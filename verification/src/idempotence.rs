//! Passes that, run a second time, change nothing.
use crate::bfir::{Node, Position};
use crate::peephole::{
    coalesce, coalesce_from, insert_by_offset, is_offset_node, keep_nodes, merge_spec, node_offset, not_zero_ptr_increment, pass_each,
    pass_node, pass_seq, shift_prefix, sort_by_offset_spec, sort_node, sort_prefix, sort_sequence_spec, with_offset, MergeRule,
    Pass,
};
use vstd::prelude::*;

verus! {

/// No two pointer increments are next to each other.
pub open spec fn no_adjacent_moves(t: Seq<Node>) -> bool {
    forall|i: int, j: int| 0 <= i && j == i + 1 && j < t.len() ==> !(#[trigger] t[i] is PointerIncrement && #[trigger] t[j] is PointerIncrement)
}

/// Coalescing pointer increments leaves none next to each other, starts
/// with a pointer increment just where its first node is one, makes only
/// nodes that are no loops, and changes nothing where no two pointer
/// increments are next to each other.
proof fn lemma_coalesce_moves(acc: Node, rest: Seq<Node>)
    ensures
        coalesce_from(acc, rest, MergeRule::PtrIncrements).len() > 0,
        (coalesce_from(acc, rest, MergeRule::PtrIncrements)[0] is PointerIncrement) == (acc is PointerIncrement),
        no_adjacent_moves(coalesce_from(acc, rest, MergeRule::PtrIncrements)),
        forall|i: int|
            #![trigger coalesce_from(acc, rest, MergeRule::PtrIncrements)[i]]
            0 <= i < coalesce_from(acc, rest, MergeRule::PtrIncrements).len() ==> {
                let y = coalesce_from(acc, rest, MergeRule::PtrIncrements)[i];
                !(y is Loop) || y == acc || exists|j: int| #![trigger rest[j]] 0 <= j < rest.len() && rest[j] == y
            },
        no_adjacent_moves(seq![acc] + rest) ==> coalesce_from(acc, rest, MergeRule::PtrIncrements) == seq![acc] + rest,
    decreases rest.len(),
{
    let rule = MergeRule::PtrIncrements;
    let out = coalesce_from(acc, rest, rule);
    let whole = seq![acc] + rest;
    assert(whole[0] == acc);
    assert forall|j: int| 0 <= j < rest.len() implies whole[j + 1] == #[trigger] rest[j] by {}
    if rest.len() == 0 {
        assert(out =~= seq![acc]);
        assert(whole =~= seq![acc]);
    } else {
        let next = rest[0];
        let tail = rest.drop_first();
        assert forall|j: int| 0 <= j < tail.len() implies #[trigger] tail[j] == rest[j + 1] by {}
        match merge_spec(rule, acc, next) {
            Some(merged) => {
                lemma_coalesce_moves(merged, tail);
                assert(whole[0] is PointerIncrement && whole[1] is PointerIncrement);
                assert forall|i: int| #![trigger out[i]] 0 <= i < out.len() implies ({
                    let y = out[i];
                    !(y is Loop) || y == acc || exists|j: int| #![trigger rest[j]] 0 <= j < rest.len() && rest[j] == y
                }) by {
                    let y = out[i];
                    if y is Loop {
                        assert(y != merged);
                        let j = choose|j: int| #![trigger tail[j]] 0 <= j < tail.len() && tail[j] == y;
                        assert(rest[j + 1] == y);
                    }
                }
            },
            None => {
                lemma_coalesce_moves(next, tail);
                let rest_out = coalesce_from(next, tail, rule);
                assert(out == seq![acc] + rest_out);
                assert(out[0] == acc);
                assert forall|j: int| 0 <= j < rest_out.len() implies out[j + 1] == #[trigger] rest_out[j] by {}
                assert(!(acc is PointerIncrement && next is PointerIncrement));
                assert forall|i: int, j: int| 0 <= i && j == i + 1 && j < out.len() implies !(#[trigger] out[i] is PointerIncrement
                    && #[trigger] out[j] is PointerIncrement) by {
                    if i > 0 {
                        assert(out[i] == rest_out[i - 1] && out[j] == rest_out[j - 1]);
                    } else {
                        assert(out[j] == rest_out[0]);
                    }
                }
                assert forall|i: int| #![trigger out[i]] 0 <= i < out.len() implies ({
                    let y = out[i];
                    !(y is Loop) || y == acc || exists|j: int| #![trigger rest[j]] 0 <= j < rest.len() && rest[j] == y
                }) by {
                    let y = out[i];
                    if i > 0 && y is Loop {
                        assert(y == rest_out[i - 1]);
                        if y == next {
                            assert(rest[0] == y);
                        } else {
                            let j = choose|j: int| #![trigger tail[j]] 0 <= j < tail.len() && tail[j] == y;
                            assert(rest[j + 1] == y);
                        }
                    }
                }
                if no_adjacent_moves(whole) {
                    assert(seq![next] + tail =~= rest);
                    assert(no_adjacent_moves(rest)) by {
                        assert forall|i: int, j: int| 0 <= i && j == i + 1 && j < rest.len() implies !(#[trigger] rest[i] is PointerIncrement
                            && #[trigger] rest[j] is PointerIncrement) by {
                            assert(whole[i + 1] == rest[i] && whole[j + 1] == rest[j]);
                        }
                    }
                    assert(out =~= whole);
                }
            },
        }
    }
}

/// The nodes that are no pointer increments of zero.
pub open spec fn kept_moves(c: Seq<Node>) -> Seq<Node> {
    keep_nodes(c, |n: Node| not_zero_ptr_increment(n))
}

/// Dropping pointer increments of zero leaves no pointer increments next
/// to each other where there were none, and keeps only what it was given,
/// and all of it where there was nothing to drop.
proof fn lemma_keep_moves(c: Seq<Node>)
    requires
        no_adjacent_moves(c),
    ensures
        no_adjacent_moves(kept_moves(c)),
        ({
            let k = kept_moves(c);
            k.len() > 0 && k.last() is PointerIncrement ==> c.len() > 0 && c.last() == k.last()
        }),
        forall|i: int|
            #![trigger kept_moves(c)[i]]
            0 <= i < kept_moves(c).len() ==> {
                let y = kept_moves(c)[i];
                not_zero_ptr_increment(y) && exists|j: int| #![trigger c[j]] 0 <= j < c.len() && c[j] == y
            },
        (forall|i: int| 0 <= i < c.len() ==> not_zero_ptr_increment(#[trigger] c[i])) ==> kept_moves(c) == c,
    decreases c.len(),
{
    let keep = |n: Node| not_zero_ptr_increment(n);
    if c.len() == 0 {
        assert(kept_moves(c) =~= c);
    } else {
        let init = c.drop_last();
        let last = c.last();
        assert forall|j: int| 0 <= j < init.len() implies #[trigger] init[j] == c[j] by {}
        assert(no_adjacent_moves(init)) by {
            assert forall|i: int, j: int| 0 <= i && j == i + 1 && j < init.len() implies !(#[trigger] init[i] is PointerIncrement
                && #[trigger] init[j] is PointerIncrement) by {
                assert(init[i] == c[i] && init[j] == c[j]);
            }
        }
        lemma_keep_moves(init);
        let k0 = kept_moves(init);
        let out = kept_moves(c);
        if keep(last) {
            assert(out == k0.push(last));
            assert forall|i: int, j: int| 0 <= i && j == i + 1 && j < out.len() implies !(#[trigger] out[i] is PointerIncrement
                && #[trigger] out[j] is PointerIncrement) by {
                if j < k0.len() {
                    assert(out[i] == k0[i] && out[j] == k0[j]);
                } else {
                    assert(out[i] == k0.last() && out[j] == last);
                    if k0.last() is PointerIncrement {
                        assert(init.last() == k0.last());
                        assert(c[c.len() - 2] == init.last());
                        assert(c[c.len() - 1] == last);
                    }
                }
            }
            assert forall|i: int| #![trigger out[i]] 0 <= i < out.len() implies ({
                let y = out[i];
                not_zero_ptr_increment(y) && exists|j: int| #![trigger c[j]] 0 <= j < c.len() && c[j] == y
            }) by {
                if i < k0.len() {
                    assert(out[i] == k0[i]);
                    let j = choose|j: int| #![trigger init[j]] 0 <= j < init.len() && init[j] == k0[i];
                    assert(c[j] == out[i]);
                } else {
                    assert(c[c.len() - 1] == out[i]);
                }
            }
            if forall|i: int| 0 <= i < c.len() ==> not_zero_ptr_increment(#[trigger] c[i]) {
                assert forall|i: int| 0 <= i < init.len() implies not_zero_ptr_increment(#[trigger] init[i]) by {
                    assert(init[i] == c[i]);
                }
                assert(k0 == init);
                assert(init.push(last) =~= c);
            }
        } else {
            assert(out == k0);
            if k0.len() > 0 && k0.last() is PointerIncrement {
                assert(init.last() == k0.last());
                assert(c[c.len() - 2] == init.last());
                assert(c[c.len() - 1] == last);
                assert(last is PointerIncrement);
            }
            assert forall|i: int| #![trigger out[i]] 0 <= i < out.len() implies ({
                let y = out[i];
                not_zero_ptr_increment(y) && exists|j: int| #![trigger c[j]] 0 <= j < c.len() && c[j] == y
            }) by {
                let j = choose|j: int| #![trigger init[j]] 0 <= j < init.len() && init[j] == k0[i];
                assert(c[j] == out[i]);
            }
            assert(!not_zero_ptr_increment(c[c.len() - 1]));
        }
    }
}

proof fn lemma_combine_ptr_node_idempotent(x: Node)
    ensures
        pass_node(Pass::CombinePtrIncrements, pass_node(Pass::CombinePtrIncrements, x)) == pass_node(Pass::CombinePtrIncrements, x),
    decreases x, 1int,
{
    if let Node::Loop { body, .. } = x {
        lemma_combine_ptr_seq_idempotent(body);
    }
}

proof fn lemma_combine_ptr_seq_idempotent(s: Seq<Node>)
    ensures
        pass_seq(Pass::CombinePtrIncrements, pass_seq(Pass::CombinePtrIncrements, s)) == pass_seq(Pass::CombinePtrIncrements, s),
    decreases s, 0int,
{
    let p = Pass::CombinePtrIncrements;
    let each = pass_each(p, s);
    let c = coalesce(each, MergeRule::PtrIncrements);
    let once = pass_seq(p, s);
    assert(once == kept_moves(c));
    if each.len() > 0 {
        lemma_coalesce_moves(each[0], each.drop_first());
    } else {
        assert(c =~= Seq::<Node>::empty());
    }
    lemma_keep_moves(c);
    // Every loop left is a node of `each`, which a second run leaves as it is.
    assert forall|i: int| 0 <= i < once.len() implies pass_node(p, #[trigger] once[i]) == once[i] by {
        let y = once[i];
        if y is Loop {
            let j = choose|j: int| #![trigger c[j]] 0 <= j < c.len() && c[j] == y;
            assert(c[j] == y);
            if y == each[0] {
                lemma_combine_ptr_node_idempotent(s[0]);
            } else {
                let k = choose|k: int| #![trigger each.drop_first()[k]] 0 <= k < each.drop_first().len() && each.drop_first()[k] == y;
                assert(each.drop_first()[k] == each[k + 1]);
                lemma_combine_ptr_node_idempotent(s[k + 1]);
            }
        }
    }
    let each2 = pass_each(p, once);
    assert(each2 =~= once);
    if once.len() > 0 {
        lemma_coalesce_moves(once[0], once.drop_first());
        assert(seq![once[0]] + once.drop_first() =~= once);
    } else {
        assert(coalesce(once, MergeRule::PtrIncrements) =~= once);
    }
    assert(coalesce(once, MergeRule::PtrIncrements) == once);
    lemma_keep_moves(once);
}

/// Combining pointer increments twice is doing it once: no two are left
/// next to each other, and none of zero.
pub proof fn law_combine_ptr_increments_idempotent(s: Seq<Node>)
    ensures
        pass_seq(Pass::CombinePtrIncrements, pass_seq(Pass::CombinePtrIncrements, s)) == pass_seq(Pass::CombinePtrIncrements, s),
{
    lemma_combine_ptr_seq_idempotent(s);
}

/// Changes in order of offset.
pub open spec fn offsets_sorted(l: Seq<Node>) -> bool {
    forall|i: int, j: int| 0 <= i < j < l.len() ==> node_offset(#[trigger] l[i]) <= node_offset(#[trigger] l[j])
}

proof fn lemma_insert_sorted(sorted: Seq<Node>, x: Node)
    requires
        offsets_sorted(sorted),
    ensures
        offsets_sorted(insert_by_offset(sorted, x)),
        insert_by_offset(sorted, x).len() == sorted.len() + 1,
        forall|i: int|
            #![trigger insert_by_offset(sorted, x)[i]]
            0 <= i < insert_by_offset(sorted, x).len() ==> insert_by_offset(sorted, x)[i] == x || exists|j: int|
                #![trigger sorted[j]]
                0 <= j < sorted.len() && sorted[j] == insert_by_offset(sorted, x)[i],
    decreases sorted.len(),
{
    let out = insert_by_offset(sorted, x);
    if sorted.len() == 0 {
        assert(out =~= seq![x]);
    } else if node_offset(sorted.last()) <= node_offset(x) {
        assert(out == sorted.push(x));
        assert forall|i: int, j: int| 0 <= i < j < out.len() implies node_offset(#[trigger] out[i]) <= node_offset(#[trigger] out[j]) by {
            if j < sorted.len() {
                assert(out[i] == sorted[i] && out[j] == sorted[j]);
            } else {
                assert(out[i] == sorted[i]);
                assert(sorted.last() == sorted[sorted.len() - 1]);
                if i < sorted.len() - 1 {
                    assert(node_offset(sorted[i]) <= node_offset(sorted[sorted.len() - 1]));
                }
            }
        }
        assert forall|i: int| #![trigger out[i]] 0 <= i < out.len() implies out[i] == x || exists|j: int|
            #![trigger sorted[j]]
            0 <= j < sorted.len() && sorted[j] == out[i] by {
            if i < sorted.len() {
                assert(sorted[i] == out[i]);
            }
        }
    } else {
        let init = sorted.drop_last();
        let last = sorted.last();
        assert forall|j: int| 0 <= j < init.len() implies #[trigger] init[j] == sorted[j] by {}
        assert(offsets_sorted(init)) by {
            assert forall|i: int, j: int| 0 <= i < j < init.len() implies node_offset(#[trigger] init[i]) <= node_offset(#[trigger] init[j]) by {
                assert(init[i] == sorted[i] && init[j] == sorted[j]);
            }
        }
        lemma_insert_sorted(init, x);
        let ins = insert_by_offset(init, x);
        assert(out == ins.push(last));
        assert forall|i: int, j: int| 0 <= i < j < out.len() implies node_offset(#[trigger] out[i]) <= node_offset(#[trigger] out[j]) by {
            if j < ins.len() {
                assert(out[i] == ins[i] && out[j] == ins[j]);
            } else {
                assert(out[i] == ins[i] && out[j] == last);
                assert(last == sorted[sorted.len() - 1]);
                if ins[i] != x {
                    let k = choose|k: int| #![trigger init[k]] 0 <= k < init.len() && init[k] == ins[i];
                    assert(node_offset(sorted[k]) <= node_offset(sorted[sorted.len() - 1]));
                }
            }
        }
        assert forall|i: int| #![trigger out[i]] 0 <= i < out.len() implies out[i] == x || exists|j: int|
            #![trigger sorted[j]]
            0 <= j < sorted.len() && sorted[j] == out[i] by {
            if i < ins.len() {
                assert(out[i] == ins[i]);
                if ins[i] != x {
                    let k = choose|k: int| #![trigger init[k]] 0 <= k < init.len() && init[k] == ins[i];
                    assert(sorted[k] == out[i]);
                }
            } else {
                assert(sorted[sorted.len() - 1] == out[i]);
            }
        }
    }
}

/// The sorted changes of a run are in order of offset.
proof fn lemma_shift_prefix_sorted(run: Seq<Node>, n: int)
    requires
        0 <= n <= run.len(),
    ensures
        offsets_sorted(shift_prefix(run, n).0),
    decreases n,
{
    if n > 0 {
        lemma_shift_prefix_sorted(run, n - 1);
        let (sorted, shift, last) = shift_prefix(run, n - 1);
        if run[n - 1] is Increment || run[n - 1] is SetCell {
            lemma_insert_sorted(sorted, with_offset(run[n - 1], shift));
        }
    }
}

/// Sorting changes already in order, with no pointer movement before
/// them, keeps them as they are.
proof fn lemma_shift_prefix_of_sorted(l: Seq<Node>, n: int)
    requires
        offsets_sorted(l),
        forall|i: int| 0 <= i < l.len() ==> #[trigger] l[i] is Increment || l[i] is SetCell,
        0 <= n <= l.len(),
    ensures
        shift_prefix(l, n) == (l.take(n), 0isize, None::<Option<Position>>),
    decreases n,
{
    if n == 0 {
        assert(l.take(0) =~= Seq::<Node>::empty());
    } else {
        lemma_shift_prefix_of_sorted(l, n - 1);
        let x = l[n - 1];
        let prefix = l.take(n - 1);
        assert(with_offset(x, 0) == x) by {
            assert(vstd::wrapping::isize_specs::wrapping_add(node_offset(x), 0) == node_offset(x));
        }
        if prefix.len() > 0 {
            assert(prefix.last() == l[n - 2]);
            assert(node_offset(l[n - 2]) <= node_offset(l[n - 1]));
        }
        assert(insert_by_offset(prefix, x) == prefix.push(x));
        assert(prefix.push(x) =~= l.take(n));
    }
}

/// Sorting a sorted run keeps it as it is.
proof fn lemma_sort_sequence_idempotent(run: Seq<Node>)
    requires
        forall|i: int| 0 <= i < run.len() ==> is_offset_node(#[trigger] run[i]),
    ensures
        sort_sequence_spec(sort_sequence_spec(run)) == sort_sequence_spec(run),
{
    let (sorted, shift, last) = shift_prefix(run, run.len() as int);
    lemma_shift_prefix_sorted(run, run.len() as int);
    lemma_shift_prefix_changes_of(run, run.len() as int);
    lemma_shift_prefix_of_sorted(sorted, sorted.len() as int);
    assert(sorted.take(sorted.len() as int) =~= sorted);
    let once = sort_sequence_spec(run);
    if shift != 0 {
        let position = match last {
            Some(p) => p,
            None => None,
        };
        let pi = Node::PointerIncrement { amount: shift, position };
        assert(once == sorted.push(pi));
        let n = once.len() as int;
        assert(once.take(n - 1) =~= sorted);
        assert(once[n - 1] == pi);
        assert(shift_prefix(once, n - 1) == shift_prefix(sorted, sorted.len() as int)) by {
            lemma_shift_prefix_same(once, sorted, n - 1);
        }
        assert(vstd::wrapping::isize_specs::wrapping_add(0, shift) == shift);
    } else {
        assert(once == sorted);
    }
}

/// `shift_prefix` of the first `n` nodes depends on those nodes alone.
proof fn lemma_shift_prefix_same(a: Seq<Node>, b: Seq<Node>, n: int)
    requires
        0 <= n <= a.len(),
        n <= b.len(),
        forall|i: int| 0 <= i < n ==> #[trigger] a[i] == b[i],
    ensures
        shift_prefix(a, n) == shift_prefix(b, n),
    decreases n,
{
    if n > 0 {
        lemma_shift_prefix_same(a, b, n - 1);
    }
}

/// The sorted changes of a run are changes.
proof fn lemma_shift_prefix_changes_of(run: Seq<Node>, n: int)
    requires
        0 <= n <= run.len(),
    ensures
        forall|i: int| 0 <= i < shift_prefix(run, n).0.len() ==> #[trigger] shift_prefix(run, n).0[i] is Increment
            || shift_prefix(run, n).0[i] is SetCell,
    decreases n,
{
    if n > 0 {
        lemma_shift_prefix_changes_of(run, n - 1);
        let (sorted, shift, last) = shift_prefix(run, n - 1);
        let x = run[n - 1];
        if x is Increment || x is SetCell {
            let y = with_offset(x, shift);
            lemma_insert_sorted_changes(sorted, y);
        }
    }
}

proof fn lemma_insert_sorted_changes(sorted: Seq<Node>, x: Node)
    requires
        forall|i: int| 0 <= i < sorted.len() ==> #[trigger] sorted[i] is Increment || sorted[i] is SetCell,
        x is Increment || x is SetCell,
    ensures
        forall|i: int| 0 <= i < insert_by_offset(sorted, x).len() ==> #[trigger] insert_by_offset(sorted, x)[i] is Increment
            || insert_by_offset(sorted, x)[i] is SetCell,
    decreases sorted.len(),
{
    if sorted.len() > 0 && node_offset(sorted.last()) > node_offset(x) {
        let init = sorted.drop_last();
        assert forall|i: int| 0 <= i < init.len() implies #[trigger] init[i] is Increment || init[i] is SetCell by {
            assert(init[i] == sorted[i]);
        }
        lemma_insert_sorted_changes(init, x);
        let ins = insert_by_offset(init, x);
        assert forall|i: int| 0 <= i < ins.push(sorted.last()).len() implies #[trigger] ins.push(sorted.last())[i] is Increment
            || ins.push(sorted.last())[i] is SetCell by {
            if i < ins.len() {
                assert(ins.push(sorted.last())[i] == ins[i]);
            } else {
                assert(sorted.last() == sorted[sorted.len() - 1]);
            }
        }
    } else if sorted.len() > 0 {
        assert forall|i: int| 0 <= i < sorted.push(x).len() implies #[trigger] sorted.push(x)[i] is Increment
            || sorted.push(x)[i] is SetCell by {
            if i < sorted.len() {
                assert(sorted.push(x)[i] == sorted[i]);
            }
        }
    }
}

/// What sorting makes of the first `n` nodes depends on those nodes alone.
proof fn lemma_sort_prefix_same(a: Seq<Node>, b: Seq<Node>, n: int)
    requires
        0 <= n <= a.len(),
        n <= b.len(),
        forall|i: int| 0 <= i < n ==> #[trigger] a[i] == b[i],
    ensures
        sort_prefix(a, n) == sort_prefix(b, n),
    decreases n,
{
    if n > 0 {
        lemma_sort_prefix_same(a, b, n - 1);
    }
}

/// Offset nodes only: all of them pending.
proof fn lemma_sort_prefix_offsets(t: Seq<Node>, n: int)
    requires
        forall|i: int| 0 <= i < t.len() ==> is_offset_node(#[trigger] t[i]),
        0 <= n <= t.len(),
    ensures
        sort_prefix(t, n) == (Seq::<Node>::empty(), t.take(n)),
    decreases n,
{
    if n == 0 {
        assert(t.take(0) =~= Seq::<Node>::empty());
    } else {
        lemma_sort_prefix_offsets(t, n - 1);
        assert(t.take(n - 1).push(t[n - 1]) =~= t.take(n));
    }
}

/// Sorting `a + b`, where nothing of `a` is pending, is sorting `a` and
/// then `b`.
proof fn lemma_sort_prefix_concat(a: Seq<Node>, b: Seq<Node>, m: int)
    requires
        sort_prefix(a, a.len() as int).1.len() == 0,
        0 <= m <= b.len(),
    ensures
        sort_prefix(a + b, a.len() + m) == (sort_prefix(a, a.len() as int).0 + sort_prefix(b, m).0, sort_prefix(b, m).1),
    decreases m,
{
    let ab = a + b;
    if m == 0 {
        assert forall|i: int| 0 <= i < a.len() implies #[trigger] ab[i] == a[i] by {}
        lemma_sort_prefix_same(ab, a, a.len() as int);
        assert(sort_prefix(a, a.len() as int).1 =~= Seq::<Node>::empty());
        assert(sort_prefix(a, a.len() as int).0 + Seq::<Node>::empty() =~= sort_prefix(a, a.len() as int).0);
    } else {
        lemma_sort_prefix_concat(a, b, m - 1);
        assert(ab[a.len() + m - 1] == b[m - 1]);
        let da = sort_prefix(a, a.len() as int).0;
        let (db, run) = sort_prefix(b, m - 1);
        let x = b[m - 1];
        if !is_offset_node(x) {
            assert((da + db + sort_sequence_spec(run)).push(sort_node(x)) =~= da + (db + sort_sequence_spec(run)).push(sort_node(x)));
        }
    }
}

/// What sorting leaves done is empty or ends with a node that is not an
/// offset node, and sorting it again changes nothing.
proof fn lemma_sort_done_fixed(s: Seq<Node>, n: int)
    requires
        0 <= n <= s.len(),
    ensures
        sort_prefix(s, n).0.len() == 0 || !is_offset_node(sort_prefix(s, n).0.last()),
        sort_by_offset_spec(sort_prefix(s, n).0) == sort_prefix(s, n).0,
        forall|i: int| 0 <= i < sort_prefix(s, n).1.len() ==> is_offset_node(#[trigger] sort_prefix(s, n).1[i]),
    decreases s, 1int, n,
{
    if n == 0 {
        assert(shift_prefix(Seq::<Node>::empty(), 0).0 =~= Seq::<Node>::empty());
        assert(sort_by_offset_spec(Seq::<Node>::empty()) =~= Seq::<Node>::empty());
    } else {
        lemma_sort_done_fixed(s, n - 1);
        let (d, run) = sort_prefix(s, n - 1);
        let x = s[n - 1];
        if is_offset_node(x) {
            assert forall|i: int| 0 <= i < run.push(x).len() implies is_offset_node(#[trigger] run.push(x)[i]) by {
                if i < run.len() {
                    assert(run.push(x)[i] == run[i]);
                }
            }
        } else {
            let q = sort_sequence_spec(run);
            let y = sort_node(x);
            let done = (d + q).push(y);
            lemma_sort_node_idempotent(x);
            lemma_sort_sequence_idempotent(run);
            lemma_sort_sequence_offsets(run);
            // Sorting `q` and then `y`: `q` is all offset nodes, `y` is not.
            let qy = q.push(y);
            assert forall|i: int| 0 <= i < q.len() implies is_offset_node(#[trigger] q[i]) by {}
            lemma_sort_prefix_offsets(q, q.len() as int);
            assert(q.take(q.len() as int) =~= q);
            lemma_sort_prefix_same(qy, q, q.len() as int);
            assert(qy[q.len() as int] == y);
            assert(sort_prefix(qy, qy.len() as int) == ((Seq::<Node>::empty() + sort_sequence_spec(q)).push(sort_node(y)), Seq::<Node>::empty()));
            assert(Seq::<Node>::empty() + q =~= q);
            // `d` leaves nothing pending, and sorting it again keeps it.
            if d.len() > 0 {
                assert(d[d.len() - 1] == d.last());
            } else {
                assert(d =~= Seq::<Node>::empty());
            }
            assert(sort_prefix(d, d.len() as int).1.len() == 0) by {
                if d.len() > 0 {
                    assert(!is_offset_node(d[d.len() - 1]));
                }
            }
            assert(shift_prefix(Seq::<Node>::empty(), 0).0 =~= Seq::<Node>::empty());
            assert(sort_sequence_spec(Seq::<Node>::empty()) =~= Seq::<Node>::empty());
            assert(sort_prefix(d, d.len() as int).0 + Seq::<Node>::empty() =~= sort_prefix(d, d.len() as int).0);
            assert(sort_prefix(d, d.len() as int).0 == d);
            lemma_sort_prefix_concat(d, qy, qy.len() as int);
            assert(d + qy =~= done);
            assert(done + Seq::<Node>::empty() =~= done);
        }
    }
}

/// A sorted run is all offset nodes.
pub proof fn lemma_sort_sequence_offsets(run: Seq<Node>)
    ensures
        forall|i: int| 0 <= i < sort_sequence_spec(run).len() ==> is_offset_node(#[trigger] sort_sequence_spec(run)[i]),
{
    let (sorted, shift, last) = shift_prefix(run, run.len() as int);
    lemma_shift_prefix_changes_of(run, run.len() as int);
    if shift != 0 {
        let pi = Node::PointerIncrement { amount: shift, position: match last { Some(p) => p, None => None } };
        assert forall|i: int| 0 <= i < sorted.push(pi).len() implies is_offset_node(#[trigger] sorted.push(pi)[i]) by {
            if i < sorted.len() {
                assert(sorted.push(pi)[i] == sorted[i]);
            }
        }
    }
}

proof fn lemma_sort_node_idempotent(x: Node)
    ensures
        sort_node(sort_node(x)) == sort_node(x),
    decreases x, 0int, 0int,
{
    if let Node::Loop { body, .. } = x {
        lemma_sort_seq_idempotent(body);
    }
}

proof fn lemma_sort_seq_idempotent(s: Seq<Node>)
    ensures
        sort_by_offset_spec(sort_by_offset_spec(s)) == sort_by_offset_spec(s),
    decreases s, 2int, 0int,
{
    let n = s.len() as int;
    lemma_sort_done_fixed(s, n);
    let (d, run) = sort_prefix(s, n);
    let q = sort_sequence_spec(run);
    lemma_sort_sequence_idempotent(run);
    lemma_sort_sequence_offsets(run);
    lemma_sort_prefix_offsets(q, q.len() as int);
    assert(q.take(q.len() as int) =~= q);
    if d.len() > 0 {
        assert(d[d.len() - 1] == d.last());
    } else {
        assert(d =~= Seq::<Node>::empty());
    }
    assert(sort_prefix(d, d.len() as int).1.len() == 0) by {
        if d.len() > 0 {
            assert(!is_offset_node(d[d.len() - 1]));
        }
    }
    assert(shift_prefix(Seq::<Node>::empty(), 0).0 =~= Seq::<Node>::empty());
    assert(sort_sequence_spec(Seq::<Node>::empty()) =~= Seq::<Node>::empty());
    assert(sort_prefix(d, d.len() as int).0 + Seq::<Node>::empty() =~= sort_prefix(d, d.len() as int).0);
    lemma_sort_prefix_concat(d, q, q.len() as int);
    assert(d + Seq::<Node>::empty() =~= d);
}

/// Sorting by offset twice is sorting once.
pub proof fn law_sort_by_offset_idempotent(s: Seq<Node>)
    ensures
        sort_by_offset_spec(sort_by_offset_spec(s)) == sort_by_offset_spec(s),
{
    lemma_sort_seq_idempotent(s);
}

} // verus!
