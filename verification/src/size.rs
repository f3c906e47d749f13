//! The optimiser never makes a program bigger. Marking known zeros adds
//! sets to zero, each right after a node that leaves the current cell at
//! zero (or at the start), and removing redundant sets takes all such sets
//! out again; in between, the passes never grow the program measured
//! without them.
use crate::bfir::{node_position, Node};
use crate::idempotence::lemma_sort_sequence_offsets;
use crate::cell_scan::{lemma_next_change_bounds, next_change};
use crate::peephole::{
    merge_set_rules, merge_sets, set_push, increment_push, merge_increments, coalesce, coalesce_from, drop_marked, is_multiply_loop_body, is_set_zero, is_zeroing_body, keep_nodes, marked, merge_spec,
    not_zero_increment, not_zero_ptr_increment, pass_each, pass_node, pass_seq, redundant_set_at, remove_redundant_sets_spec,
    Marker, MergeRule, Pass, annotate_known_zero_spec, end_position, insert_by_offset, is_offset_node, known_zero_inner,
    known_zero_node, known_zero_prefix, set_zero_at, shift_prefix, sort_by_offset_spec, sort_node, sort_prefix,
    sort_sequence_spec, start_position, with_offset, all_passes, effect_end, lemma_effect_end_bounds, optimize_once_spec,
    optimize_spec, remove_pure_code_spec, settle, MAX_OPT_ITERATIONS,
};
use vstd::prelude::*;

verus! {

/// The number of nodes, counting those in loop bodies.
pub open spec fn node_size(x: Node) -> nat
    decreases x, 0int,
{
    1 + match x {
        Node::Loop { body, .. } => seq_size(body),
        _ => 0,
    }
}

pub open spec fn seq_size(s: Seq<Node>) -> nat
    decreases s, 1int,
{
    if s.len() == 0 {
        0
    } else {
        node_size(s[0]) + seq_size(s.subrange(1, s.len() as int))
    }
}

/// Nodes after which the current cell is zero.
pub open spec fn ends_zero(x: Node) -> bool {
    x is Loop || x is MultiplyMove
}

/// The size of a node without the sets to zero, inside it, that follow a
/// node leaving the current cell at zero.
pub open spec fn node_lean_size(x: Node) -> int
    decreases x, 0int,
{
    1 + match x {
        Node::Loop { body, .. } => seq_lean_size(false, body),
        _ => 0,
    }
}

/// The size of a sequence without the sets to zero that follow a node
/// leaving the current cell at zero; `zero_before` says whether the cell
/// is zero before the first node.
pub open spec fn seq_lean_size(zero_before: bool, s: Seq<Node>) -> int
    decreases s, 1int,
{
    if s.len() == 0 {
        0
    } else {
        node_lean_size(s[0]) - (if zero_before && is_set_zero(s[0]) { 1int } else { 0int }) + seq_lean_size(
            ends_zero(s[0]),
            s.subrange(1, s.len() as int),
        )
    }
}

/// Whether the cell is zero after `a`, given whether it was before.
pub open spec fn zero_after(zero_before: bool, a: Seq<Node>) -> bool {
    if a.len() == 0 {
        zero_before
    } else {
        ends_zero(a.last())
    }
}

pub proof fn lemma_lean_bounds_node(x: Node)
    ensures
        1 <= node_lean_size(x) <= node_size(x),
    decreases x, 0int,
{
    if let Node::Loop { body, .. } = x {
        lemma_lean_bounds_seq(false, body);
    }
}

/// Leaving sets out never makes a program bigger, and takes out at most one
/// node for each node.
pub proof fn lemma_lean_bounds_seq(zero_before: bool, s: Seq<Node>)
    ensures
        0 <= seq_lean_size(zero_before, s) <= seq_size(s),
    decreases s, 1int,
{
    if s.len() > 0 {
        lemma_lean_bounds_node(s[0]);
        lemma_lean_bounds_seq(ends_zero(s[0]), s.subrange(1, s.len() as int));
    }
}

/// Sizes add up over concatenation.
pub proof fn lemma_size_concat(a: Seq<Node>, b: Seq<Node>)
    ensures
        seq_size(a + b) == seq_size(a) + seq_size(b),
    decreases a.len(),
{
    if a.len() > 0 {
        let rest = a.subrange(1, a.len() as int);
        lemma_size_concat(rest, b);
        assert((a + b)[0] == a[0]);
        assert((a + b).subrange(1, (a + b).len() as int) =~= rest + b);
    } else {
        assert(a + b =~= b);
    }
}

/// Lean sizes add up over concatenation, the second part starting from
/// what the first leaves.
pub proof fn lemma_lean_concat(zero_before: bool, a: Seq<Node>, b: Seq<Node>)
    ensures
        seq_lean_size(zero_before, a + b) == seq_lean_size(zero_before, a) + seq_lean_size(zero_after(zero_before, a), b),
    decreases a.len(),
{
    if a.len() > 0 {
        let rest = a.subrange(1, a.len() as int);
        lemma_lean_concat(ends_zero(a[0]), rest, b);
        assert((a + b)[0] == a[0]);
        assert((a + b).subrange(1, (a + b).len() as int) =~= rest + b);
        if rest.len() > 0 {
            assert(rest.last() == a.last());
        }
    } else {
        assert(a + b =~= b);
    }
}

/// Whether the cell is zero before the first node changes the lean size
/// by at most one.
pub proof fn lemma_lean_zero_before(s: Seq<Node>)
    ensures
        seq_lean_size(true, s) <= seq_lean_size(false, s) <= seq_lean_size(true, s) + 1,
{
}

/// `y` may stand for `x`: it is no bigger, and its lean size pays for any
/// set to zero after it that no longer follows a zeroing node, and for any
/// set to zero that it is itself while `x` was not.
pub open spec fn replaces_leanly(y: Node, x: Node) -> bool {
    &&& node_size(y) <= node_size(x)
    &&& node_lean_size(y) + (if ends_zero(x) && !ends_zero(y) { 1int } else { 0int }) <= node_lean_size(x)
    &&& node_lean_size(y) - (if is_set_zero(y) { 1int } else { 0int }) + (if ends_zero(x) && !ends_zero(y) { 1int } else { 0int })
        <= node_lean_size(x) - (if is_set_zero(x) { 1int } else { 0int })
}

/// Replacing each node by one that may stand for it never makes a
/// sequence bigger, nor leaner sizes bigger.
pub proof fn lemma_pointwise_sizes(zero_before: bool, t: Seq<Node>, s: Seq<Node>)
    requires
        t.len() == s.len(),
        forall|i: int| 0 <= i < s.len() ==> replaces_leanly(#[trigger] t[i], s[i]),
    ensures
        seq_size(t) <= seq_size(s),
        seq_lean_size(zero_before, t) <= seq_lean_size(zero_before, s),
    decreases s.len(),
{
    if s.len() > 0 {
        let t1 = t.subrange(1, t.len() as int);
        let s1 = s.subrange(1, s.len() as int);
        assert forall|i: int| 0 <= i < s1.len() implies replaces_leanly(#[trigger] t1[i], s1[i]) by {
            assert(t1[i] == t[i + 1] && s1[i] == s[i + 1]);
        }
        assert(replaces_leanly(t[0], s[0]));
        lemma_pointwise_sizes(ends_zero(t[0]), t1, s1);
        lemma_lean_zero_before(s1);
    }
}

/// Sizes of a sequence with one more node at the end.
pub proof fn lemma_sizes_push(zero_before: bool, a: Seq<Node>, x: Node)
    ensures
        seq_size(a.push(x)) == seq_size(a) + node_size(x),
        seq_lean_size(zero_before, a.push(x)) == seq_lean_size(zero_before, a) + node_lean_size(x) - (if zero_after(zero_before, a)
            && is_set_zero(x) { 1int } else { 0int }),
{
    lemma_size_concat(a, seq![x]);
    lemma_lean_concat(zero_before, a, seq![x]);
    assert(a + seq![x] =~= a.push(x));
    let l = seq![x];
    assert(l[0] == x);
    assert(l.subrange(1, 1) =~= Seq::<Node>::empty());
    assert(seq_size(Seq::<Node>::empty()) == 0);
    assert(seq_lean_size(ends_zero(x), Seq::<Node>::empty()) == 0);
}

/// The first `n` nodes are no bigger than the whole.
pub proof fn lemma_size_take(s: Seq<Node>, n: int)
    requires
        0 <= n <= s.len(),
    ensures
        seq_size(s.take(n)) <= seq_size(s),
{
    lemma_size_concat(s.take(n), s.skip(n));
    assert(s.take(n) + s.skip(n) =~= s);
}

/// A single change or pointer movement.
pub open spec fn is_simple(x: Node) -> bool {
    x is Increment || x is SetCell || x is PointerIncrement
}

proof fn lemma_merge_simple(rule: MergeRule, a: Node, b: Node)
    ensures
        merge_spec(rule, a, b) matches Some(m) ==> is_simple(a) && is_simple(b) && is_simple(m),
{
}

/// Merging neighbours never makes a sequence bigger, nor leaner sizes
/// bigger.
pub proof fn lemma_coalesce_sizes(zero_before: bool, acc: Node, rest: Seq<Node>, rule: MergeRule)
    ensures
        seq_size(coalesce_from(acc, rest, rule)) <= seq_size(seq![acc] + rest),
        seq_lean_size(zero_before, coalesce_from(acc, rest, rule)) <= seq_lean_size(zero_before, seq![acc] + rest),
    decreases rest.len(),
{
    let whole = seq![acc] + rest;
    assert(whole[0] == acc);
    assert(whole.subrange(1, whole.len() as int) =~= rest);
    if rest.len() == 0 {
        assert(coalesce_from(acc, rest, rule) == seq![acc]);
        assert(whole =~= seq![acc]);
    } else {
        let next = rest[0];
        let tail = rest.subrange(1, rest.len() as int);
        assert(rest.drop_first() =~= tail);
        lemma_merge_simple(rule, acc, next);
        match merge_spec(rule, acc, next) {
            Some(merged) => {
                lemma_coalesce_sizes(zero_before, merged, tail, rule);
                let w2 = seq![merged] + tail;
                assert(w2[0] == merged);
                assert(w2.subrange(1, w2.len() as int) =~= tail);
                assert(rest[0] == next);
                assert(coalesce_from(acc, rest, rule) == coalesce_from(merged, tail, rule));
                assert(node_size(acc) == 1 && node_size(next) == 1 && node_size(merged) == 1);
                assert(node_lean_size(acc) == 1 && node_lean_size(next) == 1 && node_lean_size(merged) == 1);
                assert(!ends_zero(acc) && !ends_zero(next) && !ends_zero(merged));
                assert(seq_size(rest) == node_size(next) + seq_size(tail));
                assert(seq_size(whole) == node_size(acc) + seq_size(rest));
                assert(seq_size(w2) == node_size(merged) + seq_size(tail));
                assert(seq_lean_size(false, rest) == node_lean_size(next) + seq_lean_size(ends_zero(next), tail));
                assert(seq_lean_size(zero_before, whole) == node_lean_size(acc) - (if zero_before && is_set_zero(acc) { 1int } else { 0int })
                    + seq_lean_size(ends_zero(acc), rest));
                assert(seq_lean_size(zero_before, w2) == node_lean_size(merged) - (if zero_before && is_set_zero(merged) { 1int } else { 0int })
                    + seq_lean_size(ends_zero(merged), tail));
            },
            None => {
                lemma_coalesce_sizes(ends_zero(acc), next, tail, rule);
                let rest_out = coalesce_from(next, tail, rule);
                let out = seq![acc] + rest_out;
                assert(coalesce_from(acc, rest, rule) == out);
                assert(out[0] == acc);
                assert(out.subrange(1, out.len() as int) =~= rest_out);
                assert(seq![next] + tail =~= rest);
                assert(seq_size(out) == node_size(acc) + seq_size(rest_out));
                assert(seq_size(whole) == node_size(acc) + seq_size(rest));
                assert(seq_lean_size(zero_before, out) == node_lean_size(acc) - (if zero_before && is_set_zero(acc) { 1int } else { 0int })
                    + seq_lean_size(ends_zero(acc), rest_out));
                assert(seq_lean_size(zero_before, whole) == node_lean_size(acc) - (if zero_before && is_set_zero(acc) { 1int } else { 0int })
                    + seq_lean_size(ends_zero(acc), rest));
            },
        }
    }
}

/// The same, for a whole sequence.
pub proof fn lemma_coalesce_seq_sizes(zero_before: bool, t: Seq<Node>, rule: MergeRule)
    ensures
        seq_size(coalesce(t, rule)) <= seq_size(t),
        seq_lean_size(zero_before, coalesce(t, rule)) <= seq_lean_size(zero_before, t),
{
    if t.len() > 0 {
        lemma_coalesce_sizes(zero_before, t[0], t.drop_first(), rule);
        assert(seq![t[0]] + t.drop_first() =~= t);
    }
}

/// A set absorbing its neighbours of the same cell never makes a sequence
/// bigger, nor its lean size bigger, and ends it as `x` would.
pub proof fn lemma_set_push_sizes(zero_before: bool, kept: Seq<Node>, x: Node)
    ensures
        seq_size(set_push(kept, x)) <= seq_size(kept.push(x)),
        seq_lean_size(zero_before, set_push(kept, x)) <= seq_lean_size(zero_before, kept.push(x)),
        set_push(kept, x).len() > 0,
        ends_zero(set_push(kept, x).last()) == ends_zero(x),
    decreases kept.len(),
{
    if kept.len() > 0 && merge_set_rules(kept.last(), x) is Some {
        let rest = kept.drop_last();
        let last = kept.last();
        let y = merge_set_rules(last, x).unwrap();
        lemma_merge_simple(MergeRule::IncrementThenSet, last, x);
        lemma_merge_simple(MergeRule::SetThenIncrement, last, x);
        lemma_merge_simple(MergeRule::SetThenSet, last, x);
        assert(is_simple(y) && is_simple(last) && is_simple(x));
        lemma_set_push_sizes(zero_before, rest, y);
        assert(rest.push(last) =~= kept);
        lemma_sizes_push(zero_before, rest, y);
        lemma_sizes_push(zero_before, rest, last);
        lemma_sizes_push(zero_before, kept, x);
        assert(kept.last() == last);
        assert(node_size(last) == 1 && node_size(x) == 1 && node_size(y) == 1);
        assert(node_lean_size(last) == 1 && node_lean_size(x) == 1 && node_lean_size(y) == 1);
    } else {
        assert(kept.push(x).last() == x);
    }
}

pub proof fn lemma_sets_sizes(zero_before: bool, s: Seq<Node>)
    ensures
        seq_size(merge_sets(s)) <= seq_size(s),
        seq_lean_size(zero_before, merge_sets(s)) <= seq_lean_size(zero_before, s),
        zero_after(zero_before, merge_sets(s)) == zero_after(zero_before, s),
    decreases s.len(),
{
    if s.len() > 0 {
        let init = s.drop_last();
        let a = merge_sets(init);
        lemma_sets_sizes(zero_before, init);
        lemma_set_push_sizes(zero_before, a, s.last());
        lemma_sizes_push(zero_before, a, s.last());
        lemma_sizes_push(zero_before, init, s.last());
        assert(init.push(s.last()) =~= s);
    }
}

/// Merging increments, dropping increments of zero on the way, never
/// makes a sequence bigger.
pub proof fn lemma_increment_push_size(kept: Seq<Node>, x: Node)
    ensures
        seq_size(increment_push(kept, x)) <= seq_size(kept.push(x)),
    decreases kept.len(),
{
    let rest = kept.drop_last();
    if kept.len() > 0 {
        assert(rest.push(kept.last()) =~= kept);
        lemma_sizes_push(false, rest, kept.last());
    }
    lemma_sizes_push(false, kept, x);
    if kept.len() > 0 && merge_spec(MergeRule::Increments, kept.last(), x) is Some {
        let y = merge_spec(MergeRule::Increments, kept.last(), x).unwrap();
        lemma_merge_simple(MergeRule::Increments, kept.last(), x);
        lemma_sizes_push(false, rest, y);
        assert(node_size(y) == 1 && node_size(x) == 1);
    } else if kept.len() > 0 && !not_zero_increment(kept.last()) {
        lemma_increment_push_size(rest, x);
        lemma_sizes_push(false, rest, x);
    }
}

pub proof fn lemma_merge_increments_size(s: Seq<Node>)
    ensures
        seq_size(merge_increments(s)) <= seq_size(s),
    decreases s.len(),
{
    if s.len() > 0 {
        let init = s.drop_last();
        let a = merge_increments(init);
        lemma_merge_increments_size(init);
        lemma_increment_push_size(a, s.last());
        lemma_sizes_push(false, a, s.last());
        lemma_sizes_push(false, init, s.last());
        assert(init.push(s.last()) =~= s);
    }
}

/// Replacing each node by one no bigger never makes a sequence bigger.
pub proof fn lemma_pointwise_size(t: Seq<Node>, s: Seq<Node>)
    requires
        t.len() == s.len(),
        forall|i: int| 0 <= i < s.len() ==> node_size(#[trigger] t[i]) <= node_size(s[i]),
    ensures
        seq_size(t) <= seq_size(s),
    decreases s.len(),
{
    if s.len() > 0 {
        let t1 = t.subrange(1, t.len() as int);
        let s1 = s.subrange(1, s.len() as int);
        assert forall|i: int| 0 <= i < s1.len() implies node_size(#[trigger] t1[i]) <= node_size(s1[i]) by {
            assert(t1[i] == t[i + 1] && s1[i] == s[i + 1]);
        }
        assert(node_size(t[0]) <= node_size(s[0]));
        lemma_pointwise_size(t1, s1);
    }
}

/// Dropping nodes never makes a sequence bigger.
pub proof fn lemma_keep_nodes_size(s: Seq<Node>, keep: spec_fn(Node) -> bool)
    ensures
        seq_size(keep_nodes(s, keep)) <= seq_size(s),
    decreases s.len(),
{
    if s.len() > 0 {
        let init = s.drop_last();
        lemma_keep_nodes_size(init, keep);
        lemma_sizes_push(false, init, s.last());
        lemma_sizes_push(false, keep_nodes(init, keep), s.last());
        assert(init.push(s.last()) =~= s);
    }
}

/// Dropping marked nodes never makes a sequence bigger.
pub proof fn lemma_drop_marked_size(mk: Marker, t: Seq<Node>, n: int)
    requires
        0 <= n <= t.len(),
    ensures
        seq_size(drop_marked(mk, t, n)) <= seq_size(t.take(n)),
    decreases n,
{
    if n == 0 {
        assert(t.take(0) =~= Seq::<Node>::empty());
    } else {
        lemma_drop_marked_size(mk, t, n - 1);
        let x = t[n - 1];
        lemma_sizes_push(false, t.take(n - 1), x);
        lemma_sizes_push(false, drop_marked(mk, t, n - 1), x);
        assert(t.take(n - 1).push(x) =~= t.take(n));
    }
}

/// Dropping loops never makes the lean size bigger: a dropped loop pays
/// for the set to zero after it, which then no longer follows a zeroing
/// node. Where what is kept no longer ends on a zeroing node while the
/// whole does, it is smaller by one more.
pub proof fn lemma_drop_loops_lean(zero_before: bool, mk: Marker, t: Seq<Node>, n: int)
    requires
        0 <= n <= t.len(),
        forall|i: int| 0 <= i < t.len() && #[trigger] marked(mk, t, i) ==> t[i] is Loop,
    ensures
        seq_lean_size(zero_before, drop_marked(mk, t, n)) + (if zero_after(zero_before, t.take(n)) && !zero_after(
            zero_before,
            drop_marked(mk, t, n),
        ) { 1int } else { 0int }) <= seq_lean_size(zero_before, t.take(n)),
    decreases n,
{
    if n == 0 {
        assert(t.take(0) =~= Seq::<Node>::empty());
    } else {
        lemma_drop_loops_lean(zero_before, mk, t, n - 1);
        let x = t[n - 1];
        let a = drop_marked(mk, t, n - 1);
        let b = t.take(n - 1);
        lemma_sizes_push(zero_before, b, x);
        assert(b.push(x) =~= t.take(n));
        assert(t.take(n).last() == x);
        lemma_lean_bounds_node(x);
        if marked(mk, t, n - 1) {
            assert(x is Loop);
            assert(!is_set_zero(x));
        } else {
            lemma_sizes_push(zero_before, a, x);
            assert(a.push(x).last() == x);
        }
    }
}

/// Dropping the sets to zero that follow a loop or multiply-move leaves no
/// more than the lean size.
proof fn lemma_redundant_prefix(s: Seq<Node>, t: Seq<Node>, n: int)
    requires
        t == pass_each(Pass::RedundantSets, s),
        forall|i: int| 0 <= i < s.len() ==> node_size(#[trigger] t[i]) <= node_lean_size(s[i]),
        0 <= n <= s.len(),
    ensures
        seq_size(drop_marked(Marker::RedundantSet, t, n)) <= seq_lean_size(false, s.take(n)),
    decreases n,
{
    if n == 0 {
        assert(s.take(0) =~= Seq::<Node>::empty());
    } else {
        lemma_redundant_prefix(s, t, n - 1);
        let x = s[n - 1];
        let y = t[n - 1];
        let a = drop_marked(Marker::RedundantSet, t, n - 1);
        lemma_sizes_push(false, s.take(n - 1), x);
        assert(s.take(n - 1).push(x) =~= s.take(n));
        lemma_lean_bounds_node(x);
        if !marked(Marker::RedundantSet, t, n - 1) {
            lemma_sizes_push(false, a, y);
            assert(node_size(y) <= node_lean_size(x));
            if zero_after(false, s.take(n - 1)) && is_set_zero(x) {
                assert(s.take(n - 1).last() == s[n - 2]);
                assert(t[n - 2] == pass_node(Pass::RedundantSets, s[n - 2]));
                assert(t[n - 2] is Loop || t[n - 2] is MultiplyMove);
                assert(y == x);
                assert(next_change(t, n - 2) == Some(n - 1));
                assert(redundant_set_at(t, n - 1));
            }
        }
    }
}

/// Dropping marked nodes keeps the first node where it is not marked.
proof fn lemma_drop_marked_first(mk: Marker, t: Seq<Node>, n: int)
    requires
        1 <= n <= t.len(),
        !marked(mk, t, 0),
    ensures
        drop_marked(mk, t, n).len() > 0,
        drop_marked(mk, t, n)[0] == t[0],
    decreases n,
{
    if n > 1 {
        lemma_drop_marked_first(mk, t, n - 1);
    } else {
        assert(drop_marked(mk, t, 0) == Seq::<Node>::empty());
    }
}

proof fn lemma_redundant_node(x: Node)
    ensures
        node_size(pass_node(Pass::RedundantSets, x)) <= node_lean_size(x),
    decreases x, 1int,
{
    if let Node::Loop { body, .. } = x {
        lemma_redundant_seq(body);
    }
}

/// Dropping, at every depth, the sets to zero that follow a loop or a
/// multiply-move leaves no more than the lean size.
proof fn lemma_redundant_seq(s: Seq<Node>)
    ensures
        seq_size(pass_seq(Pass::RedundantSets, s)) <= seq_lean_size(false, s),
    decreases s, 0int,
{
    let t = pass_each(Pass::RedundantSets, s);
    assert forall|i: int| 0 <= i < s.len() implies node_size(#[trigger] t[i]) <= node_lean_size(s[i]) by {
        lemma_redundant_node(s[i]);
    }
    lemma_redundant_prefix(s, t, s.len() as int);
    assert(s.take(s.len() as int) =~= s);
}

/// The whole pass, which also drops a leading set to zero, leaves no more
/// than the lean size of a program that starts on a zero cell.
pub proof fn lemma_remove_redundant_sets_size(d: Seq<Node>)
    ensures
        seq_size(remove_redundant_sets_spec(d)) <= seq_lean_size(true, d),
{
    let reduced = pass_seq(Pass::RedundantSets, d);
    lemma_redundant_seq(d);
    if d.len() > 0 && is_set_zero(d[0]) {
        let t = pass_each(Pass::RedundantSets, d);
        assert(t[0] == d[0]);
        if marked(Marker::RedundantSet, t, 0) {
            let w = choose|w: int|
                0 <= w < t.len() && (t[w] is Loop || t[w] is MultiplyMove) && #[trigger] next_change(t, w) == Some(0int);
            lemma_next_change_bounds(t, w + 1, 0);
        }
        lemma_drop_marked_first(Marker::RedundantSet, t, t.len() as int);
        assert(reduced[0] == d[0]);
        assert(seq_size(reduced) == node_size(reduced[0]) + seq_size(reduced.subrange(1, reduced.len() as int)));
        assert(reduced.drop_first() =~= reduced.subrange(1, reduced.len() as int));
    } else if reduced.len() > 0 && is_set_zero(reduced[0]) {
        assert(seq_size(reduced) == node_size(reduced[0]) + seq_size(reduced.subrange(1, reduced.len() as int)));
        assert(reduced.drop_first() =~= reduced.subrange(1, reduced.len() as int));
    }
}

proof fn lemma_lean_pass_node(p: Pass, x: Node)
    requires
        p == Pass::ExtractMultiply || p == Pass::ZeroingLoops || p == Pass::CombineSets || p == Pass::DeadLoops,
    ensures
        replaces_leanly(pass_node(p, x), x),
    decreases x, 1int,
{
    if let Node::Loop { body, position } = x {
        if p == Pass::ZeroingLoops && is_zeroing_body(body) {
            assert(body[0] is Increment);
            assert(seq_size(body) == node_size(body[0]) + seq_size(body.subrange(1, 1)));
            assert(body.subrange(1, 1) =~= Seq::<Node>::empty());
            assert(seq_size(Seq::<Node>::empty()) == 0);
            assert(seq_lean_size(false, body) == node_lean_size(body[0]) + seq_lean_size(false, body.subrange(1, 1)));
            assert(seq_lean_size(false, Seq::<Node>::empty()) == 0);
        } else if p == Pass::ExtractMultiply && is_multiply_loop_body(body) {
            lemma_lean_bounds_seq(false, body);
        } else {
            lemma_lean_pass_seq(p, false, body);
        }
    }
}

/// The passes between marking known zeros and removing redundant sets
/// never make a program bigger, nor its lean size bigger.
pub proof fn lemma_lean_pass_seq(p: Pass, zero_before: bool, s: Seq<Node>)
    requires
        p == Pass::ExtractMultiply || p == Pass::ZeroingLoops || p == Pass::CombineSets || p == Pass::DeadLoops,
    ensures
        seq_size(pass_seq(p, s)) <= seq_size(s),
        seq_lean_size(zero_before, pass_seq(p, s)) <= seq_lean_size(zero_before, s),
    decreases s, 0int,
{
    let each = pass_each(p, s);
    assert forall|i: int| 0 <= i < s.len() implies replaces_leanly(#[trigger] each[i], s[i]) by {
        lemma_lean_pass_node(p, s[i]);
    }
    lemma_pointwise_sizes(zero_before, each, s);
    if p == Pass::CombineSets {
        lemma_sets_sizes(zero_before, each);
    } else if p == Pass::DeadLoops {
        lemma_drop_marked_size(Marker::DeadLoop, each, each.len() as int);
        lemma_drop_loops_lean(zero_before, Marker::DeadLoop, each, each.len() as int);
        assert(each.take(each.len() as int) =~= each);
    }
}

proof fn lemma_size_pass_node(p: Pass, x: Node)
    requires
        p == Pass::CombineIncrements || p == Pass::CombinePtrIncrements || p == Pass::ReadClobber,
    ensures
        node_size(pass_node(p, x)) <= node_size(x),
    decreases x, 1int,
{
    if let Node::Loop { body, .. } = x {
        lemma_size_pass_seq(p, body);
    }
}

/// Combining increments or pointer increments, and dropping changes that
/// reads overwrite, never make a program bigger.
pub proof fn lemma_size_pass_seq(p: Pass, s: Seq<Node>)
    requires
        p == Pass::CombineIncrements || p == Pass::CombinePtrIncrements || p == Pass::ReadClobber,
    ensures
        seq_size(pass_seq(p, s)) <= seq_size(s),
    decreases s, 0int,
{
    let each = pass_each(p, s);
    assert forall|i: int| 0 <= i < s.len() implies node_size(#[trigger] each[i]) <= node_size(s[i]) by {
        lemma_size_pass_node(p, s[i]);
    }
    lemma_pointwise_size(each, s);
    if p == Pass::ReadClobber {
        lemma_drop_marked_size(Marker::Clobbered, each, each.len() as int);
        assert(each.take(each.len() as int) =~= each);
    } else {
        if p == Pass::CombineIncrements {
            lemma_merge_increments_size(each);
            lemma_keep_nodes_size(merge_increments(each), |n: Node| not_zero_increment(n));
        } else {
            lemma_coalesce_seq_sizes(false, each, MergeRule::PtrIncrements);
            lemma_keep_nodes_size(coalesce(each, MergeRule::PtrIncrements), |n: Node| not_zero_ptr_increment(n));
        }
    }
}

proof fn lemma_known_zero_loop_lean(x: Node)
    requires
        x is Loop,
    ensures
        node_lean_size(known_zero_node(x)) <= node_size(x),
    decreases x, 0int, 0int,
{
    let body = x->Loop_body;
    lemma_known_zero_prefix_lean(body, body.len() as int, false);
    assert(body.take(body.len() as int) =~= body);
}

/// Marking known zeros after the loops of the first `n` nodes adds nothing
/// to the lean size: each mark follows a loop.
proof fn lemma_known_zero_prefix_lean(s: Seq<Node>, n: int, zero_before: bool)
    requires
        0 <= n <= s.len(),
    ensures
        seq_lean_size(zero_before, known_zero_prefix(s, n)) <= seq_size(s.take(n)),
    decreases s, 1int, n,
{
    if n == 0 {
        assert(s.take(0) =~= Seq::<Node>::empty());
    } else {
        let x = s[n - 1];
        let before = known_zero_prefix(s, n - 1);
        lemma_known_zero_prefix_lean(s, n - 1, zero_before);
        lemma_sizes_push(zero_before, s.take(n - 1), x);
        assert(s.take(n - 1).push(x) =~= s.take(n));
        if let Node::Loop { position, .. } = x {
            lemma_known_zero_loop_lean(x);
            let y = known_zero_node(x);
            let z = set_zero_at(end_position(position));
            let with_loop = before.push(y);
            lemma_sizes_push(zero_before, before, y);
            lemma_sizes_push(zero_before, with_loop, z);
            assert(with_loop.last() == y);
        } else {
            lemma_sizes_push(zero_before, before, x);
        }
    }
}

/// Marking known zeros adds nothing to the lean size of a program that
/// starts on a zero cell.
pub proof fn lemma_annotate_lean(s: Seq<Node>)
    ensures
        seq_lean_size(true, annotate_known_zero_spec(s)) <= seq_size(s),
{
    let inner = known_zero_inner(s);
    lemma_known_zero_prefix_lean(s, s.len() as int, false);
    lemma_known_zero_prefix_lean(s, s.len() as int, true);
    assert(s.take(s.len() as int) =~= s);
    let position = if s.len() == 0 { None } else { start_position(node_position(s[0])) };
    let z = set_zero_at(position);
    if !(s.len() > 0 && s[0] == z) {
        let out = seq![z] + inner;
        assert(out[0] == z);
        assert(out.subrange(1, out.len() as int) =~= inner);
        assert(is_set_zero(z) && !ends_zero(z) && node_lean_size(z) == 1);
        assert(seq_lean_size(true, out) == node_lean_size(z) - 1 + seq_lean_size(false, inner));
        assert(annotate_known_zero_spec(s) == out);
    }
}

/// The nodes of a sequence without loops each count one.
proof fn lemma_size_without_loops(l: Seq<Node>)
    requires
        forall|i: int| 0 <= i < l.len() ==> !(#[trigger] l[i] is Loop),
    ensures
        seq_size(l) == l.len(),
    decreases l.len(),
{
    if l.len() > 0 {
        let rest = l.subrange(1, l.len() as int);
        assert forall|i: int| 0 <= i < rest.len() implies !(#[trigger] rest[i] is Loop) by {
            assert(rest[i] == l[i + 1]);
        }
        lemma_size_without_loops(rest);
        assert(!(l[0] is Loop));
        assert(node_size(l[0]) == 1);
    }
}

proof fn lemma_insert_len(sorted: Seq<Node>, x: Node)
    ensures
        insert_by_offset(sorted, x).len() == sorted.len() + 1,
    decreases sorted.len(),
{
    if sorted.len() > 0 {
        lemma_insert_len(sorted.drop_last(), x);
    }
}

/// A run's sorted changes and its one pointer increment are no more than
/// its nodes.
proof fn lemma_shift_prefix_count(run: Seq<Node>, n: int)
    requires
        0 <= n <= run.len(),
    ensures
        shift_prefix(run, n).0.len() + (if shift_prefix(run, n).1 != 0 { 1int } else { 0int }) <= n,
    decreases n,
{
    if n > 0 {
        lemma_shift_prefix_count(run, n - 1);
        let (sorted, shift, last) = shift_prefix(run, n - 1);
        if run[n - 1] is Increment || run[n - 1] is SetCell {
            lemma_insert_len(sorted, with_offset(run[n - 1], shift));
        }
    }
}

proof fn lemma_sort_sequence_size(run: Seq<Node>)
    ensures
        seq_size(sort_sequence_spec(run)) <= run.len(),
{
    lemma_shift_prefix_count(run, run.len() as int);
    lemma_sort_sequence_offsets(run);
    let sorted = sort_sequence_spec(run);
    assert forall|i: int| 0 <= i < sorted.len() implies !(#[trigger] sorted[i] is Loop) by {
        assert(is_offset_node(sorted[i]));
    }
    lemma_size_without_loops(sorted);
}

proof fn lemma_sort_node_size(x: Node)
    ensures
        node_size(sort_node(x)) <= node_size(x),
    decreases x, 0int, 0int,
{
    if let Node::Loop { body, .. } = x {
        lemma_sort_seq_size(body);
    }
}

proof fn lemma_sort_prefix_size(s: Seq<Node>, n: int)
    requires
        0 <= n <= s.len(),
    ensures
        seq_size(sort_prefix(s, n).0) + sort_prefix(s, n).1.len() <= seq_size(s.take(n)),
    decreases s, 1int, n,
{
    if n == 0 {
        assert(s.take(0) =~= Seq::<Node>::empty());
    } else {
        lemma_sort_prefix_size(s, n - 1);
        let (done, run) = sort_prefix(s, n - 1);
        let x = s[n - 1];
        lemma_sizes_push(false, s.take(n - 1), x);
        assert(s.take(n - 1).push(x) =~= s.take(n));
        if !is_offset_node(x) {
            lemma_sort_node_size(x);
            lemma_sort_sequence_size(run);
            lemma_size_concat(done, sort_sequence_spec(run));
            lemma_sizes_push(false, done + sort_sequence_spec(run), sort_node(x));
        } else {
            assert(node_size(x) == 1);
        }
    }
}

/// Sorting by offset never makes a program bigger.
pub proof fn lemma_sort_seq_size(s: Seq<Node>)
    ensures
        seq_size(sort_by_offset_spec(s)) <= seq_size(s),
    decreases s, 2int, 0int,
{
    lemma_sort_prefix_size(s, s.len() as int);
    assert(s.take(s.len() as int) =~= s);
    let (done, run) = sort_prefix(s, s.len() as int);
    lemma_sort_sequence_size(run);
    lemma_size_concat(done, sort_sequence_spec(run));
}

/// One round of all the passes never makes a program bigger.
proof fn lemma_round_size(s: Seq<Node>)
    ensures
        seq_size(optimize_once_spec(s, all_passes()).0) <= seq_size(s),
{
    let s1 = pass_seq(Pass::CombineIncrements, s);
    let s2 = pass_seq(Pass::CombinePtrIncrements, s1);
    let s3 = annotate_known_zero_spec(s2);
    let s4 = pass_seq(Pass::ExtractMultiply, s3);
    let s5 = pass_seq(Pass::ZeroingLoops, s4);
    let s6 = pass_seq(Pass::CombineSets, s5);
    let s7 = pass_seq(Pass::DeadLoops, s6);
    let s8 = remove_redundant_sets_spec(s7);
    let s9 = pass_seq(Pass::ReadClobber, s8);
    let s10 = remove_pure_code_spec(s9).0;
    let s11 = sort_by_offset_spec(s10);
    assert(optimize_once_spec(s, all_passes()).0 == s11);
    lemma_size_pass_seq(Pass::CombineIncrements, s);
    lemma_size_pass_seq(Pass::CombinePtrIncrements, s1);
    lemma_annotate_lean(s2);
    lemma_lean_pass_seq(Pass::ExtractMultiply, true, s3);
    lemma_lean_pass_seq(Pass::ZeroingLoops, true, s4);
    lemma_lean_pass_seq(Pass::CombineSets, true, s5);
    lemma_lean_pass_seq(Pass::DeadLoops, true, s6);
    lemma_remove_redundant_sets_size(s7);
    lemma_size_pass_seq(Pass::ReadClobber, s8);
    lemma_effect_end_bounds(s9, s9.len() as int);
    lemma_size_take(s9, effect_end(s9, s9.len() as int));
    lemma_sort_seq_size(s10);
}

proof fn lemma_settle_size(prev: Seq<Node>, result: Seq<Node>, fuel: nat)
    ensures
        seq_size(settle(prev, result, all_passes(), fuel)) <= seq_size(result),
    decreases fuel,
{
    if fuel > 0 && prev != result {
        let next = optimize_once_spec(result, all_passes()).0;
        lemma_round_size(result);
        lemma_settle_size(result, next, (fuel - 1) as nat);
    }
}

/// The optimiser never makes a program bigger: the optimised program has
/// no more nodes, counting those in loop bodies, than the given one.
pub proof fn law_optimize_never_grows(s: Seq<Node>)
    ensures
        seq_size(optimize_spec(s, all_passes())) <= seq_size(s),
{
    let first = optimize_once_spec(s, all_passes()).0;
    lemma_round_size(s);
    lemma_settle_size(s, first, MAX_OPT_ITERATIONS as nat);
}

} // verus!
