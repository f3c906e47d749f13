//! What the peephole passes promise of every program, stated over their
//! specifications.
use crate::bfir::{combine_spec, node_position, Node, Position};
use crate::peephole::{
    merge_set_rules, all_passes, drop_marked, known_zero_node, end_position, is_zeroing_body, is_multiply_loop_body, is_increment_or_move, effect_end, has_effect, remove_pure_code_spec, remove_redundant_sets_spec, is_set_zero,
    Marker, dead_loop_at, redundant_set_at, known_zero_inner, not_zero_ptr_increment,
    merge_sets, set_push, increment_push, merge_increments, annotate_known_zero_spec, coalesce, coalesce_from, keep_nodes, known_zero_prefix, merge_spec, not_zero_increment,
    optimize_once_spec, optimize_settles, optimize_spec, pass_each, pass_node, pass_seq, pass_top, set_zero_at, settle,
    settles, shift_prefix, sort_by_offset_spec, sort_prefix, sort_sequence_spec, start_position, MergeRule, Pass,
    PassSet, insert_by_offset, with_offset, is_offset_node, node_offset,
};
use vstd::prelude::*;

verus! {

/// A pass leaves the nodes of a level without loops as they are, before it
/// turns to the level itself.
pub proof fn lemma_pass_each_without_loops(p: Pass, s: Seq<Node>)
    requires
        forall|i: int| 0 <= i < s.len() ==> !(#[trigger] s[i] is Loop),
    ensures
        pass_each(p, s) == s,
{
    assert(pass_each(p, s) =~= s);
}

proof fn lemma_keep_nodes_kept(s: Seq<Node>, keep: spec_fn(Node) -> bool)
    ensures
        forall|i: int| 0 <= i < keep_nodes(s, keep).len() ==> keep(#[trigger] keep_nodes(s, keep)[i]),
    decreases s.len(),
{
    if s.len() > 0 {
        lemma_keep_nodes_kept(s.drop_last(), keep);
        let before = keep_nodes(s.drop_last(), keep);
        if keep(s.last()) {
            assert forall|i: int| 0 <= i < before.push(s.last()).len() implies keep(#[trigger] before.push(s.last())[i]) by {
                if i < before.len() {
                    assert(before.push(s.last())[i] == before[i]);
                }
            }
        }
    }
}

/// After `combine_increments`, no increment of zero is left at the top
/// level: they are dropped whatever their offset.
pub proof fn law_combine_increments_leaves_no_zero_increment(s: Seq<Node>)
    ensures
        forall|i: int| 0 <= i < pass_seq(Pass::CombineIncrements, s).len()
            ==> not_zero_increment(#[trigger] pass_seq(Pass::CombineIncrements, s)[i]),
{
    lemma_keep_nodes_kept(merge_increments(pass_each(Pass::CombineIncrements, s)), |n: Node| not_zero_increment(n));
}

/// An increment of zero, at any offset, is removed.
pub proof fn law_combine_increments_removes_zero_increment(offset: isize, position: Option<Position>)
    ensures
        pass_seq(Pass::CombineIncrements, seq![Node::Increment { amount: 0, offset, position }]) == Seq::<Node>::empty(),
{
    let s = seq![Node::Increment { amount: 0, offset, position }];
    lemma_pass_each_without_loops(Pass::CombineIncrements, s);
    assert(merge_increments(s) == s) by {
        assert(s.drop_last() =~= Seq::<Node>::empty());
        assert(merge_increments(s.drop_last()) == Seq::<Node>::empty());
        assert(Seq::<Node>::empty().push(s.last()) =~= s);
    }
    let keep = |n: Node| not_zero_increment(n);
    assert(s.last() == Node::Increment { amount: 0, offset, position });
    assert(!keep(s.last()));
    assert(s.drop_last() =~= Seq::<Node>::empty());
    assert(keep_nodes(s.drop_last(), keep) == Seq::<Node>::empty());
    assert(keep_nodes(s, keep) == Seq::<Node>::empty());
}

/// Two adjacent nodes, as `merge_sets` sees them: merged where they make
/// one set.
proof fn lemma_sets_pair(x: Node, y: Node)
    ensures
        merge_sets(seq![x, y]) == match merge_set_rules(x, y) {
            Some(m) => seq![m],
            None => seq![x, y],
        },
{
    let s = seq![x, y];
    assert(s.drop_last() =~= seq![x]);
    assert(seq![x].drop_last() =~= Seq::<Node>::empty());
    assert(merge_sets(seq![x].drop_last()) == Seq::<Node>::empty());
    assert(Seq::<Node>::empty().push(x) =~= seq![x]);
    assert(merge_sets(seq![x]) == seq![x]);
    assert(seq![x].last() == x);
    assert(seq![x].drop_last() =~= Seq::<Node>::empty());
    match merge_set_rules(x, y) {
        Some(m) => {
            assert(set_push(Seq::<Node>::empty(), m) =~= seq![m]);
        },
        None => {
            assert(seq![x].push(y) =~= seq![x, y]);
        },
    }
}

/// A set followed by an increment of the same cell becomes one set of
/// their sum.
pub proof fn law_set_then_increment_combine(offset: isize, set_amount: i8, increment_amount: i8, p1: Option<Position>, p2: Option<Position>)
    ensures
        pass_seq(Pass::CombineSets, seq![
            Node::SetCell { amount: set_amount, offset, position: p1 },
            Node::Increment { amount: increment_amount, offset, position: p2 },
        ]) == seq![Node::SetCell {
            amount: vstd::wrapping::i8_specs::wrapping_add(set_amount, increment_amount),
            offset,
            position: combine_spec(p1, p2),
        }],
{
    let x = Node::SetCell { amount: set_amount, offset, position: p1 };
    let y = Node::Increment { amount: increment_amount, offset, position: p2 };
    lemma_pass_each_without_loops(Pass::CombineSets, seq![x, y]);
    lemma_sets_pair(x, y);
}

/// An increment followed by a set of the same cell is that set.
pub proof fn law_increment_then_set_combine(offset: isize, increment_amount: i8, set_amount: i8, p1: Option<Position>, p2: Option<Position>)
    ensures
        pass_seq(Pass::CombineSets, seq![
            Node::Increment { amount: increment_amount, offset, position: p1 },
            Node::SetCell { amount: set_amount, offset, position: p2 },
        ]) == seq![Node::SetCell { amount: set_amount, offset, position: combine_spec(p2, p1) }],
{
    let x = Node::Increment { amount: increment_amount, offset, position: p1 };
    let y = Node::SetCell { amount: set_amount, offset, position: p2 };
    lemma_pass_each_without_loops(Pass::CombineSets, seq![x, y]);
    lemma_sets_pair(x, y);
}

/// Two sets of the same cell are the second set.
pub proof fn law_set_then_set_combine(offset: isize, amount_before: i8, amount_after: i8, p1: Option<Position>, p2: Option<Position>)
    ensures
        pass_seq(Pass::CombineSets, seq![
            Node::SetCell { amount: amount_before, offset, position: p1 },
            Node::SetCell { amount: amount_after, offset, position: p2 },
        ]) == seq![Node::SetCell { amount: amount_after, offset, position: combine_spec(p1, p2) }],
{
    let x = Node::SetCell { amount: amount_before, offset, position: p1 };
    let y = Node::SetCell { amount: amount_after, offset, position: p2 };
    lemma_pass_each_without_loops(Pass::CombineSets, seq![x, y]);
    lemma_sets_pair(x, y);
}

/// Sets and increments of different cells are left as they are, in either
/// order.
pub proof fn law_different_cells_not_combined(first: Node, second: Node)
    requires
        first is SetCell || first is Increment,
        second is SetCell || second is Increment,
        first is SetCell || second is SetCell,
        match (first, second) {
            (Node::SetCell { offset: o1, .. }, Node::SetCell { offset: o2, .. }) => o1 != o2,
            (Node::SetCell { offset: o1, .. }, Node::Increment { offset: o2, .. }) => o1 != o2,
            (Node::Increment { offset: o1, .. }, Node::SetCell { offset: o2, .. }) => o1 != o2,
            _ => false,
        },
    ensures
        pass_seq(Pass::CombineSets, seq![first, second]) == seq![first, second],
{
    lemma_pass_each_without_loops(Pass::CombineSets, seq![first, second]);
    lemma_sets_pair(first, second);
}

/// `annotate_known_zero` starts every program with a set to zero of the
/// current cell.
pub proof fn law_annotate_known_zero_starts_with_set_zero(s: Seq<Node>)
    ensures
        annotate_known_zero_spec(s).len() > 0,
        annotate_known_zero_spec(s)[0] matches Node::SetCell { amount, offset, .. } && amount == 0 && offset == 0,
{
    let position = if s.len() == 0 { None } else { start_position(node_position(s[0])) };
    if s.len() > 0 && s[0] == set_zero_at(position) {
        lemma_known_zero_prefix_first(s, s.len() as int);
    }
}

proof fn lemma_known_zero_prefix_first(s: Seq<Node>, n: int)
    requires
        1 <= n <= s.len(),
        !(s[0] is Loop),
    ensures
        known_zero_prefix(s, n).len() >= 1,
        known_zero_prefix(s, n)[0] == s[0],
    decreases n,
{
    if n > 1 {
        lemma_known_zero_prefix_first(s, n - 1);
    } else {
        assert(known_zero_prefix(s, 0) =~= Seq::<Node>::empty());
    }
}

proof fn lemma_settle_reaches_fixed_point(prev: Seq<Node>, result: Seq<Node>, passes: PassSet, fuel: nat)
    requires
        settles(prev, result, passes, fuel),
        result == optimize_once_spec(prev, passes).0,
    ensures
        optimize_once_spec(settle(prev, result, passes, fuel), passes).0 == settle(prev, result, passes, fuel),
    decreases fuel,
{
    if prev != result {
        lemma_settle_reaches_fixed_point(result, optimize_once_spec(result, passes).0, passes, (fuel - 1) as nat);
    }
}

/// Once the optimiser has reached a fixed point, optimising its result
/// again changes nothing.
pub proof fn law_optimize_idempotent(s: Seq<Node>, passes: PassSet)
    requires
        optimize_settles(s, passes),
    ensures
        optimize_spec(optimize_spec(s, passes), passes) == optimize_spec(s, passes),
{
    let first = optimize_once_spec(s, passes).0;
    lemma_settle_reaches_fixed_point(s, first, passes, 40);
}

/// Sorting by offset moves a set behind a pointer decrement to offset -1,
/// ahead of the set at offset 0, and keeps one pointer decrement at the end.
pub proof fn law_sort_by_offset_sets(amount1: i8, amount2: i8, p1: Option<Position>, p2: Option<Position>, p3: Option<Position>)
    ensures
        sort_by_offset_spec(seq![
            Node::SetCell { amount: amount1, offset: 0, position: p1 },
            Node::PointerIncrement { amount: -1isize, position: p2 },
            Node::SetCell { amount: amount2, offset: 0, position: p3 },
        ]) == seq![
            Node::SetCell { amount: amount2, offset: -1isize, position: p3 },
            Node::SetCell { amount: amount1, offset: 0, position: p1 },
            Node::PointerIncrement { amount: -1isize, position: p2 },
        ],
{
    let a = Node::SetCell { amount: amount1, offset: 0, position: p1 };
    let b = Node::PointerIncrement { amount: -1isize, position: p2 };
    let c = Node::SetCell { amount: amount2, offset: 0, position: p3 };
    let s = seq![a, b, c];
    assert(sort_prefix(s, 0) == (Seq::<Node>::empty(), Seq::<Node>::empty()));
    assert(sort_prefix(s, 1) == (Seq::<Node>::empty(), seq![a])) by {
        assert(Seq::<Node>::empty().push(a) =~= seq![a]);
    }
    assert(sort_prefix(s, 2) == (Seq::<Node>::empty(), seq![a, b])) by {
        assert(seq![a].push(b) =~= seq![a, b]);
    }
    assert(sort_prefix(s, 3) == (Seq::<Node>::empty(), seq![a, b, c])) by {
        assert(seq![a, b].push(c) =~= seq![a, b, c]);
    }
    let moved = Node::SetCell { amount: amount2, offset: -1isize, position: p3 };
    assert(with_offset(c, -1isize) == moved);
    assert(insert_by_offset(Seq::<Node>::empty(), a) == seq![a]);
    assert(insert_by_offset(seq![a], moved) == seq![moved, a]) by {
        reveal_with_fuel(insert_by_offset, 2);
        assert(seq![a].drop_last() =~= Seq::<Node>::empty());
        assert(seq![moved].push(a) =~= seq![moved, a]);
    }
    lemma_shift_three(a, b, c, moved, p2);
    assert(Seq::<Node>::empty() + sort_sequence_spec(s) =~= seq![moved, a, b]);
}

proof fn lemma_shift_three(a: Node, b: Node, c: Node, moved: Node, p2: Option<Position>)
    requires
        a is SetCell && node_offset(a) == 0,
        b == (Node::PointerIncrement { amount: -1isize, position: p2 }),
        c is SetCell,
        with_offset(c, -1isize) == moved,
        insert_by_offset(seq![a], moved) == seq![moved, a],
    ensures
        shift_prefix(seq![a, b, c], 3) == (seq![moved, a], -1isize, Some(p2)),
{
    let s = seq![a, b, c];
    assert(s[0] == a && s[1] == b && s[2] == c);
    assert(shift_prefix(s, 0) == (Seq::<Node>::empty(), 0isize, None::<Option<Position>>));
    assert(vstd::wrapping::isize_specs::wrapping_add(0isize, 0isize) == 0isize);
    assert(with_offset(a, 0isize) == a);
    assert(insert_by_offset(Seq::<Node>::empty(), a) == seq![a]);
    assert(shift_prefix(s, 1) == (seq![a], 0isize, None::<Option<Position>>));
    assert(shift_prefix(s, 2) == (seq![a], -1isize, Some(p2)));
}

/// Sorting by offset merges two pointer increments into one, unless they
/// cancel out.
pub proof fn law_sort_by_offset_pointer_increments(amount1: isize, amount2: isize, p1: Option<Position>, p2: Option<Position>)
    requires
        vstd::wrapping::isize_specs::wrapping_add(amount1, amount2) != 0,
    ensures
        sort_by_offset_spec(seq![
            Node::PointerIncrement { amount: amount1, position: p1 },
            Node::PointerIncrement { amount: amount2, position: p2 },
        ]) == seq![Node::PointerIncrement {
            amount: vstd::wrapping::isize_specs::wrapping_add(amount1, amount2),
            position: p2,
        }],
{
    let a = Node::PointerIncrement { amount: amount1, position: p1 };
    let b = Node::PointerIncrement { amount: amount2, position: p2 };
    let s = seq![a, b];
    reveal_with_fuel(sort_prefix, 3);
    assert(sort_prefix(s, 2) == (Seq::<Node>::empty(), seq![a, b])) by {
        assert(sort_prefix(s, 1) == (Seq::<Node>::empty(), seq![a]));
        assert(seq![a].push(b) =~= seq![a, b]);
    }
    reveal_with_fuel(shift_prefix, 3);
    assert(vstd::wrapping::isize_specs::wrapping_add(0, amount1) == amount1);
    assert(shift_prefix(seq![a, b], 2) == (Seq::<Node>::empty(), vstd::wrapping::isize_specs::wrapping_add(amount1, amount2), Some(p2)));
    assert(Seq::<Node>::empty() + sort_sequence_spec(seq![a, b]) =~= sort_sequence_spec(seq![a, b]));
}

/// A level with no reads, writes or loops: nothing that it does can be
/// seen.
pub open spec fn is_pure(s: Seq<Node>) -> bool {
    forall|i: int| 0 <= i < s.len() ==> !has_effect(#[trigger] s[i])
}

proof fn lemma_coalesce_from_pure(acc: Node, rest: Seq<Node>, rule: MergeRule)
    requires
        !has_effect(acc),
        is_pure(rest),
    ensures
        is_pure(coalesce_from(acc, rest, rule)),
    decreases rest.len(),
{
    if rest.len() > 0 {
        assert(!has_effect(rest[0]));
        assert(is_pure(rest.drop_first())) by {
            assert forall|i: int| 0 <= i < rest.drop_first().len() implies !has_effect(#[trigger] rest.drop_first()[i]) by {
                assert(rest.drop_first()[i] == rest[i + 1]);
            }
        }
        match merge_spec(rule, acc, rest[0]) {
            Some(merged) => {
                lemma_coalesce_from_pure(merged, rest.drop_first(), rule);
            },
            None => {
                lemma_coalesce_from_pure(rest[0], rest.drop_first(), rule);
                let tail = coalesce_from(rest[0], rest.drop_first(), rule);
                assert forall|i: int| 0 <= i < (seq![acc] + tail).len() implies !has_effect(#[trigger] (seq![acc] + tail)[i]) by {
                    if i > 0 {
                        assert((seq![acc] + tail)[i] == tail[i - 1]);
                    }
                }
            },
        }
    }
}

proof fn lemma_coalesce_pure(s: Seq<Node>, rule: MergeRule)
    requires
        is_pure(s),
    ensures
        is_pure(coalesce(s, rule)),
{
    if s.len() > 0 {
        assert(!has_effect(s[0]));
        assert(is_pure(s.drop_first())) by {
            assert forall|i: int| 0 <= i < s.drop_first().len() implies !has_effect(#[trigger] s.drop_first()[i]) by {
                assert(s.drop_first()[i] == s[i + 1]);
            }
        }
        lemma_coalesce_from_pure(s[0], s.drop_first(), rule);
    }
}

proof fn lemma_set_push_pure(kept: Seq<Node>, x: Node)
    requires
        is_pure(kept),
        !has_effect(x),
    ensures
        is_pure(set_push(kept, x)),
    decreases kept.len(),
{
    let rest = kept.drop_last();
    if kept.len() > 0 {
        assert(is_pure(rest)) by {
            assert forall|i: int| 0 <= i < rest.len() implies !has_effect(#[trigger] rest[i]) by {
                assert(rest[i] == kept[i]);
            }
        }
        assert(!has_effect(kept[kept.len() - 1]));
    }
    if kept.len() > 0 && merge_set_rules(kept.last(), x) is Some {
        lemma_set_push_pure(rest, merge_set_rules(kept.last(), x).unwrap());
    } else {
        assert forall|i: int| 0 <= i < kept.push(x).len() implies !has_effect(#[trigger] kept.push(x)[i]) by {
            if i < kept.len() {
                assert(kept.push(x)[i] == kept[i]);
            }
        }
    }
}

proof fn lemma_sets_pure(s: Seq<Node>)
    requires
        is_pure(s),
    ensures
        is_pure(merge_sets(s)),
    decreases s.len(),
{
    if s.len() > 0 {
        assert(is_pure(s.drop_last())) by {
            assert forall|i: int| 0 <= i < s.drop_last().len() implies !has_effect(#[trigger] s.drop_last()[i]) by {
                assert(s.drop_last()[i] == s[i]);
            }
        }
        lemma_sets_pure(s.drop_last());
        assert(!has_effect(s[s.len() - 1]));
        lemma_set_push_pure(merge_sets(s.drop_last()), s.last());
    }
}

proof fn lemma_increment_push_pure(kept: Seq<Node>, x: Node)
    requires
        is_pure(kept),
        !has_effect(x),
    ensures
        is_pure(increment_push(kept, x)),
    decreases kept.len(),
{
    let rest = kept.drop_last();
    if kept.len() > 0 {
        assert(is_pure(rest)) by {
            assert forall|i: int| 0 <= i < rest.len() implies !has_effect(#[trigger] rest[i]) by {
                assert(rest[i] == kept[i]);
            }
        }
        assert(!has_effect(kept[kept.len() - 1]));
    }
    if kept.len() > 0 && merge_spec(MergeRule::Increments, kept.last(), x) is Some {
        let y = merge_spec(MergeRule::Increments, kept.last(), x).unwrap();
        assert forall|i: int| 0 <= i < rest.push(y).len() implies !has_effect(#[trigger] rest.push(y)[i]) by {
            if i < rest.len() {
                assert(rest.push(y)[i] == rest[i]);
            }
        }
    } else if kept.len() > 0 && !not_zero_increment(kept.last()) {
        lemma_increment_push_pure(rest, x);
    } else {
        assert forall|i: int| 0 <= i < kept.push(x).len() implies !has_effect(#[trigger] kept.push(x)[i]) by {
            if i < kept.len() {
                assert(kept.push(x)[i] == kept[i]);
            }
        }
    }
}

proof fn lemma_merge_increments_pure(s: Seq<Node>)
    requires
        is_pure(s),
    ensures
        is_pure(merge_increments(s)),
    decreases s.len(),
{
    if s.len() > 0 {
        assert(is_pure(s.drop_last())) by {
            assert forall|i: int| 0 <= i < s.drop_last().len() implies !has_effect(#[trigger] s.drop_last()[i]) by {
                assert(s.drop_last()[i] == s[i]);
            }
        }
        lemma_merge_increments_pure(s.drop_last());
        assert(!has_effect(s[s.len() - 1]));
        lemma_increment_push_pure(merge_increments(s.drop_last()), s.last());
    }
}

proof fn lemma_keep_nodes_pure(s: Seq<Node>, keep: spec_fn(Node) -> bool)
    requires
        is_pure(s),
    ensures
        is_pure(keep_nodes(s, keep)),
    decreases s.len(),
{
    if s.len() > 0 {
        assert(is_pure(s.drop_last())) by {
            assert forall|i: int| 0 <= i < s.drop_last().len() implies !has_effect(#[trigger] s.drop_last()[i]) by {
                assert(s.drop_last()[i] == s[i]);
            }
        }
        lemma_keep_nodes_pure(s.drop_last(), keep);
        let before = keep_nodes(s.drop_last(), keep);
        assert(!has_effect(s[s.len() - 1]));
        assert forall|i: int| 0 <= i < before.push(s.last()).len() implies !has_effect(#[trigger] before.push(s.last())[i]) by {
            if i < before.len() {
                assert(before.push(s.last())[i] == before[i]);
            }
        }
    }
}

proof fn lemma_drop_marked_pure(m: Marker, s: Seq<Node>, n: int)
    requires
        is_pure(s),
        n <= s.len(),
    ensures
        is_pure(drop_marked(m, s, n)),
    decreases n,
{
    if n > 0 {
        lemma_drop_marked_pure(m, s, n - 1);
        let before = drop_marked(m, s, n - 1);
        assert(!has_effect(s[n - 1]));
        assert forall|i: int| 0 <= i < before.push(s[n - 1]).len() implies !has_effect(#[trigger] before.push(s[n - 1])[i]) by {
            if i < before.len() {
                assert(before.push(s[n - 1])[i] == before[i]);
            }
        }
    }
}

proof fn lemma_pure_no_loops(s: Seq<Node>)
    requires
        is_pure(s),
    ensures
        forall|i: int| 0 <= i < s.len() ==> !(#[trigger] s[i] is Loop),
{
    assert forall|i: int| 0 <= i < s.len() implies !(#[trigger] s[i] is Loop) by {
        assert(!has_effect(s[i]));
    }
}

/// Every pass keeps a level pure.
proof fn lemma_pass_seq_pure(p: Pass, s: Seq<Node>)
    requires
        is_pure(s),
    ensures
        is_pure(pass_seq(p, s)),
{
    lemma_pure_no_loops(s);
    lemma_pass_each_without_loops(p, s);
    match p {
        Pass::CombineIncrements => {
            lemma_merge_increments_pure(s);
            lemma_keep_nodes_pure(merge_increments(s), |n: Node| not_zero_increment(n));
        },
        Pass::CombinePtrIncrements => {
            lemma_coalesce_pure(s, MergeRule::PtrIncrements);
            lemma_keep_nodes_pure(coalesce(s, MergeRule::PtrIncrements), |n: Node| not_zero_ptr_increment(n));
        },
        Pass::CombineSets => {
            lemma_sets_pure(s);
        },
        Pass::DeadLoops => {
            lemma_drop_marked_pure(Marker::DeadLoop, s, s.len() as int);
        },
        Pass::ReadClobber => {
            lemma_drop_marked_pure(Marker::Clobbered, s, s.len() as int);
        },
        Pass::RedundantSets => {
            lemma_drop_marked_pure(Marker::RedundantSet, s, s.len() as int);
        },
        _ => {},
    }
}

proof fn lemma_known_zero_prefix_without_loops(s: Seq<Node>, n: int)
    requires
        0 <= n <= s.len(),
        forall|i: int| 0 <= i < s.len() ==> !(#[trigger] s[i] is Loop),
    ensures
        known_zero_prefix(s, n) == s.take(n),
    decreases n,
{
    if n > 0 {
        lemma_known_zero_prefix_without_loops(s, n - 1);
        assert(!(s[n - 1] is Loop));
        assert(s.take(n) =~= s.take(n - 1).push(s[n - 1]));
    } else {
        assert(s.take(0) =~= Seq::<Node>::empty());
    }
}

proof fn lemma_annotate_pure(s: Seq<Node>)
    requires
        is_pure(s),
    ensures
        is_pure(annotate_known_zero_spec(s)),
{
    lemma_pure_no_loops(s);
    lemma_known_zero_prefix_without_loops(s, s.len() as int);
    assert(s.take(s.len() as int) =~= s);
    let position = if s.len() == 0 { None } else { start_position(node_position(s[0])) };
    let set = set_zero_at(position);
    assert forall|i: int| 0 <= i < (seq![set] + s).len() implies !has_effect(#[trigger] (seq![set] + s)[i]) by {
        if i > 0 {
            assert((seq![set] + s)[i] == s[i - 1]);
        }
    }
}

proof fn lemma_effect_end_pure(s: Seq<Node>, n: int)
    requires
        is_pure(s),
        n <= s.len(),
    ensures
        effect_end(s, n) == 0,
    decreases n,
{
    if n > 0 {
        assert(!has_effect(s[n - 1]));
        lemma_effect_end_pure(s, n - 1);
    }
}

proof fn lemma_sort_empty()
    ensures
        sort_by_offset_spec(Seq::<Node>::empty()) == Seq::<Node>::empty(),
{
    assert(Seq::<Node>::empty() + Seq::<Node>::empty() =~= Seq::<Node>::empty());
}

/// One round of every pass leaves nothing of a pure program.
proof fn lemma_once_pure(s: Seq<Node>)
    requires
        is_pure(s),
    ensures
        optimize_once_spec(s, all_passes()).0 == Seq::<Node>::empty(),
{
    let s1 = pass_seq(Pass::CombineIncrements, s);
    lemma_pass_seq_pure(Pass::CombineIncrements, s);
    let s2 = pass_seq(Pass::CombinePtrIncrements, s1);
    lemma_pass_seq_pure(Pass::CombinePtrIncrements, s1);
    let s3 = annotate_known_zero_spec(s2);
    lemma_annotate_pure(s2);
    let s4 = pass_seq(Pass::ExtractMultiply, s3);
    lemma_pass_seq_pure(Pass::ExtractMultiply, s3);
    let s5 = pass_seq(Pass::ZeroingLoops, s4);
    lemma_pass_seq_pure(Pass::ZeroingLoops, s4);
    let s6 = pass_seq(Pass::CombineSets, s5);
    lemma_pass_seq_pure(Pass::CombineSets, s5);
    let s7 = pass_seq(Pass::DeadLoops, s6);
    lemma_pass_seq_pure(Pass::DeadLoops, s6);
    let reduced = pass_seq(Pass::RedundantSets, s7);
    lemma_pass_seq_pure(Pass::RedundantSets, s7);
    let s8 = remove_redundant_sets_spec(s7);
    assert(is_pure(s8)) by {
        if reduced.len() > 0 && is_set_zero(reduced[0]) {
            assert forall|i: int| 0 <= i < reduced.drop_first().len() implies !has_effect(#[trigger] reduced.drop_first()[i]) by {
                assert(reduced.drop_first()[i] == reduced[i + 1]);
            }
        }
    }
    let s9 = pass_seq(Pass::ReadClobber, s8);
    lemma_pass_seq_pure(Pass::ReadClobber, s8);
    lemma_effect_end_pure(s9, s9.len() as int);
    assert(s9.take(0) =~= Seq::<Node>::empty());
    lemma_sort_empty();
}

/// One round of every pass on the empty program gives it back.
proof fn lemma_once_empty()
    ensures
        optimize_once_spec(Seq::<Node>::empty(), all_passes()).0 == Seq::<Node>::empty(),
{
    let e = Seq::<Node>::empty();
    assert(is_pure(e));
    lemma_once_pure(e);
}

/// A program with no reads, writes or loops at its top level has no
/// effect that can be seen: the optimiser removes all of it.
pub proof fn law_optimize_removes_pure_program(s: Seq<Node>)
    requires
        is_pure(s),
    ensures
        optimize_spec(s, all_passes()) == Seq::<Node>::empty(),
{
    lemma_once_pure(s);
    lemma_once_empty();
    let e = Seq::<Node>::empty();
    if s != e {
        assert(settle(e, optimize_once_spec(e, all_passes()).0, all_passes(), 39) == e);
    }
}

/// What `known_zero_prefix` gives for fewer nodes is the start of what it
/// gives for more.
proof fn lemma_known_zero_prefix_grows(s: Seq<Node>, n: int, m: int)
    requires
        0 <= n <= m <= s.len(),
    ensures
        known_zero_prefix(s, n).len() <= known_zero_prefix(s, m).len(),
        forall|i: int| 0 <= i < known_zero_prefix(s, n).len() ==> #[trigger] known_zero_prefix(s, m)[i] == known_zero_prefix(s, n)[i],
    decreases m,
{
    if n < m {
        lemma_known_zero_prefix_grows(s, n, m - 1);
        let before = known_zero_prefix(s, m - 1);
        assert forall|i: int| 0 <= i < known_zero_prefix(s, n).len() implies #[trigger] known_zero_prefix(s, m)[i] == known_zero_prefix(s, n)[i] by {
            assert(known_zero_prefix(s, m)[i] == before[i]);
        }
    }
}

/// Annotating a node twice is annotating it once.
proof fn lemma_known_zero_node_idempotent(n: Node)
    ensures
        known_zero_node(known_zero_node(n)) == known_zero_node(n),
    decreases n, 0int, 0int,
{
    match n {
        Node::Loop { body, position } => {
            lemma_known_zero_inner_idempotent(body);
        },
        _ => {},
    }
}

/// Re-annotating the annotated nodes of the first `n` nodes of `s` adds
/// nothing: every loop in the annotation is already followed by its set to
/// zero.
proof fn lemma_known_zero_reannotate(s: Seq<Node>, n: int)
    requires
        0 <= n <= s.len(),
    ensures
        known_zero_prefix(known_zero_inner(s), known_zero_prefix(s, n).len() as int) == known_zero_prefix(s, n),
    decreases s, 1int, n,
{
    let t = known_zero_inner(s);
    if n > 0 {
        lemma_known_zero_reannotate(s, n - 1);
        let before = known_zero_prefix(s, n - 1);
        let l = before.len() as int;
        let x = s[n - 1];
        lemma_known_zero_prefix_grows(s, n, s.len() as int);
        let now = known_zero_prefix(s, n);
        assert(t[l] == now[l]);
        match x {
            Node::Loop { body, position } => {
                lemma_known_zero_node_idempotent(x);
                let set = set_zero_at(end_position(position));
                assert(now[l] == known_zero_node(x));
                assert(known_zero_node(x) matches Node::Loop { position: p, .. } && p == position);
                if n < s.len() && s[n] == set {
                    lemma_known_zero_prefix_grows(s, n + 1, s.len() as int);
                    let next = known_zero_prefix(s, n + 1);
                    assert(next == now.push(s[n]));
                    assert(t[l + 1] == next[l + 1]);
                    assert(t[l + 1] == set);
                    assert(known_zero_prefix(t, l + 1) =~= before.push(known_zero_node(x)));
                } else {
                    assert(now == before.push(known_zero_node(x)).push(set));
                    assert(t[l + 1] == now[l + 1]);
                    assert(known_zero_prefix(t, l + 1) =~= before.push(known_zero_node(x)));
                    assert(!(t[l + 1] is Loop));
                    assert(known_zero_prefix(t, l + 2) =~= now);
                }
            },
            _ => {
                assert(known_zero_prefix(t, l + 1) =~= now);
            },
        }
    }
}

/// Annotating twice is annotating once.
proof fn lemma_known_zero_inner_idempotent(s: Seq<Node>)
    ensures
        known_zero_inner(known_zero_inner(s)) == known_zero_inner(s),
    decreases s, 2int, 0int,
{
    lemma_known_zero_reannotate(s, s.len() as int);
}

/// A node that is no loop, put in front, is kept in front.
proof fn lemma_known_zero_prefix_cons(y: Node, t: Seq<Node>, n: int)
    requires
        !(y is Loop),
        0 <= n <= t.len(),
    ensures
        known_zero_prefix(seq![y] + t, n + 1) == seq![y] + known_zero_prefix(t, n),
    decreases n,
{
    let yt = seq![y] + t;
    if n == 0 {
        assert(known_zero_prefix(yt, 0) == Seq::<Node>::empty());
        assert(yt[0] == y);
        assert(Seq::<Node>::empty().push(y) =~= seq![y] + Seq::<Node>::empty());
    } else {
        lemma_known_zero_prefix_cons(y, t, n - 1);
        assert(yt[n] == t[n - 1]);
        assert(n + 1 < yt.len() ==> yt[n + 1] == t[n]);
        let rest = known_zero_prefix(t, n - 1);
        match t[n - 1] {
            Node::Loop { position, .. } => {
                assert((seq![y] + rest).push(known_zero_node(t[n - 1])) =~= seq![y] + rest.push(known_zero_node(t[n - 1])));
                let set = set_zero_at(end_position(position));
                assert((seq![y] + rest).push(known_zero_node(t[n - 1])).push(set) =~= seq![y] + rest.push(known_zero_node(t[n - 1])).push(set));
            },
            other => {
                assert((seq![y] + rest).push(other) =~= seq![y] + rest.push(other));
            },
        }
    }
}

/// Annotating known zeroes twice gives what annotating once gives.
pub proof fn law_annotate_known_zero_idempotent(s: Seq<Node>)
    ensures
        annotate_known_zero_spec(annotate_known_zero_spec(s)) == annotate_known_zero_spec(s),
{
    let a = annotate_known_zero_spec(s);
    let position = if s.len() == 0 { None } else { start_position(node_position(s[0])) };
    let set = set_zero_at(position);
    assert(start_position(position) == position);
    lemma_known_zero_inner_idempotent(s);
    if s.len() > 0 && s[0] == set {
        lemma_known_zero_prefix_first(s, s.len() as int);
        assert(a[0] == set);
    } else {
        lemma_known_zero_prefix_cons(set, known_zero_inner(s), known_zero_inner(s).len() as int);
        assert(a[0] == set);
    }
}

/// `pass_seq` of a pass that changes nothing at the level itself is
/// `pass_node` on each node.
proof fn lemma_pass_seq_each(p: Pass, s: Seq<Node>)
    requires
        p == Pass::ZeroingLoops || p == Pass::ExtractMultiply,
    ensures
        pass_seq(p, s) == pass_each(p, s),
        pass_seq(p, s).len() == s.len(),
        forall|i: int| 0 <= i < s.len() ==> #[trigger] pass_seq(p, s)[i] == pass_node(p, s[i]),
{
}

proof fn lemma_zeroing_node_idempotent(n: Node)
    ensures
        pass_node(Pass::ZeroingLoops, pass_node(Pass::ZeroingLoops, n)) == pass_node(Pass::ZeroingLoops, n),
    decreases n, 1int,
{
    let p = Pass::ZeroingLoops;
    match n {
        Node::Loop { body, position } => {
            if !is_zeroing_body(body) {
                let once = pass_seq(p, body);
                lemma_pass_seq_each(p, body);
                if is_zeroing_body(once) {
                    // A single node maps to an increment only if it is that increment.
                    assert(pass_node(p, body[0]) == once[0]);
                    assert(!(body[0] is Loop));
                    assert(body[0] == once[0]);
                    assert(is_zeroing_body(body));
                }
                lemma_zeroing_seq_idempotent(body);
            }
        },
        _ => {},
    }
}

proof fn lemma_zeroing_seq_idempotent(s: Seq<Node>)
    ensures
        pass_seq(Pass::ZeroingLoops, pass_seq(Pass::ZeroingLoops, s)) == pass_seq(Pass::ZeroingLoops, s),
    decreases s, 0int,
{
    let p = Pass::ZeroingLoops;
    let once = pass_seq(p, s);
    lemma_pass_seq_each(p, s);
    lemma_pass_seq_each(p, once);
    assert forall|i: int| 0 <= i < s.len() implies #[trigger] pass_seq(p, once)[i] == once[i] by {
        lemma_zeroing_node_idempotent(s[i]);
    }
    assert(pass_seq(p, once) =~= once);
}

/// Turning `[-]` into a set to zero twice is doing it once.
pub proof fn law_zeroing_loops_idempotent(s: Seq<Node>)
    ensures
        pass_seq(Pass::ZeroingLoops, pass_seq(Pass::ZeroingLoops, s)) == pass_seq(Pass::ZeroingLoops, s),
{
    lemma_zeroing_seq_idempotent(s);
}

proof fn lemma_multiply_node_idempotent(n: Node)
    ensures
        pass_node(Pass::ExtractMultiply, pass_node(Pass::ExtractMultiply, n)) == pass_node(Pass::ExtractMultiply, n),
    decreases n, 1int,
{
    let p = Pass::ExtractMultiply;
    match n {
        Node::Loop { body, position } => {
            if !is_multiply_loop_body(body) {
                let once = pass_seq(p, body);
                lemma_pass_seq_each(p, body);
                if is_multiply_loop_body(once) {
                    // Only increments and pointer increments: there were no
                    // loops to change, so the body is as it was.
                    assert forall|i: int| 0 <= i < body.len() implies #[trigger] body[i] == once[i] by {
                        assert(is_increment_or_move(once[i]));
                        assert(once[i] == pass_node(p, body[i]));
                    }
                    assert(once =~= body);
                }
                lemma_multiply_seq_idempotent(body);
            }
        },
        _ => {},
    }
}

proof fn lemma_multiply_seq_idempotent(s: Seq<Node>)
    ensures
        pass_seq(Pass::ExtractMultiply, pass_seq(Pass::ExtractMultiply, s)) == pass_seq(Pass::ExtractMultiply, s),
    decreases s, 0int,
{
    let p = Pass::ExtractMultiply;
    let once = pass_seq(p, s);
    lemma_pass_seq_each(p, s);
    lemma_pass_seq_each(p, once);
    assert forall|i: int| 0 <= i < s.len() implies #[trigger] pass_seq(p, once)[i] == once[i] by {
        lemma_multiply_node_idempotent(s[i]);
    }
    assert(pass_seq(p, once) =~= once);
}

/// Extracting multiply loops twice is doing it once.
pub proof fn law_extract_multiply_idempotent(s: Seq<Node>)
    ensures
        pass_seq(Pass::ExtractMultiply, pass_seq(Pass::ExtractMultiply, s)) == pass_seq(Pass::ExtractMultiply, s),
{
    lemma_multiply_seq_idempotent(s);
}

/// Removing pure code twice is removing it once: the second time there is
/// nothing to remove, and no warning.
pub proof fn law_remove_pure_code_idempotent(s: Seq<Node>)
    ensures
        remove_pure_code_spec(remove_pure_code_spec(s).0).0 == remove_pure_code_spec(s).0,
        remove_pure_code_spec(remove_pure_code_spec(s).0).1 is None,
{
    let k = effect_end(s, s.len() as int);
    lemma_effect_end_facts(s, s.len() as int);
    let t = s.take(k);
    if k > 0 {
        assert(t[k - 1] == s[k - 1]);
        assert(effect_end(t, k) == k);
    } else {
        assert(effect_end(t, 0) == 0);
    }
    assert(t.take(k) =~= t);
}

proof fn lemma_effect_end_facts(s: Seq<Node>, n: int)
    requires
        0 <= n <= s.len(),
    ensures
        0 <= effect_end(s, n) <= n,
        effect_end(s, n) > 0 ==> has_effect(s[effect_end(s, n) - 1]),
    decreases n,
{
    if n > 0 {
        lemma_effect_end_facts(s, n - 1);
    }
}

} // verus!
