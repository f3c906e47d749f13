//! Optimisations that replace parts of the BF AST with faster
//! equivalents.
use crate::cell_scan::{
    lemma_next_change_bounds, lemma_prev_change_bounds, next_cell_change, next_change, previous_cell_change,
    previous_change,
};
use crate::bfir::{
    clone_node, combine_spec, get_position, lemma_nodes_view_empty, lemma_nodes_view_push, node_position,
    clone_nodes, collect_chars, node_view, nodes_equal, nodes_view, AstNode, Cell, Combine, Node, Position,
};
use crate::diagnostics::Warning;
use crate::pass_names::{is_piece, law_pass_names};
use vstd::prelude::*;

verus! {

broadcast use vstd::std_specs::vec::group_vec_axioms;

/// The peephole passes that work on every loop body as well as on the top
/// level.
#[derive(Clone, Copy, PartialEq, Eq, Debug, Structural)]
pub enum Pass {
    CombineIncrements,
    CombinePtrIncrements,
    ZeroingLoops,
    ExtractMultiply,
    CombineSets,
    DeadLoops,
    ReadClobber,
    RedundantSets,
}

/// The rules by which two adjacent nodes merge into one.
#[derive(Clone, Copy, PartialEq, Eq, Debug, Structural)]
pub enum MergeRule {
    /// Two increments of the same cell add up.
    Increments,
    /// Two pointer increments add up.
    PtrIncrements,
    /// An increment followed by a set of the same cell is that set.
    IncrementThenSet,
    /// A set followed by an increment of the same cell is one set.
    SetThenIncrement,
    /// Two sets of the same cell are the second set.
    SetThenSet,
}

/// The node that two adjacent nodes merge into under `rule`, if they merge.
pub open spec fn merge_spec(rule: MergeRule, prev: Node, next: Node) -> Option<Node> {
    match rule {
        MergeRule::Increments => match (prev, next) {
            (Node::Increment { amount: a1, offset: o1, position: p1 }, Node::Increment { amount: a2, offset: o2, position: p2 }) =>
                if o1 == o2 {
                    Some(Node::Increment { amount: vstd::wrapping::i8_specs::wrapping_add(a2, a1), offset: o2, position: combine_spec(p1, p2) })
                } else {
                    None
                },
            _ => None,
        },
        MergeRule::PtrIncrements => match (prev, next) {
            (Node::PointerIncrement { amount: a1, position: p1 }, Node::PointerIncrement { amount: a2, position: p2 }) =>
                Some(Node::PointerIncrement { amount: vstd::wrapping::isize_specs::wrapping_add(a2, a1), position: combine_spec(p1, p2) }),
            _ => None,
        },
        MergeRule::IncrementThenSet => match (prev, next) {
            (Node::Increment { offset: o1, position: p1, .. }, Node::SetCell { amount, offset: o2, position: p2 }) =>
                if o1 == o2 {
                    Some(Node::SetCell { amount, offset: o2, position: combine_spec(p2, p1) })
                } else {
                    None
                },
            _ => None,
        },
        MergeRule::SetThenIncrement => match (prev, next) {
            (Node::SetCell { amount: a1, offset: o1, position: p1 }, Node::Increment { amount: a2, offset: o2, position: p2 }) =>
                if o1 == o2 {
                    Some(Node::SetCell { amount: vstd::wrapping::i8_specs::wrapping_add(a1, a2), offset: o1, position: combine_spec(p1, p2) })
                } else {
                    None
                },
            _ => None,
        },
        MergeRule::SetThenSet => match (prev, next) {
            (Node::SetCell { offset: o1, position: p1, .. }, Node::SetCell { amount, offset: o2, position: p2 }) =>
                if o1 == o2 {
                    Some(Node::SetCell { amount, offset: o1, position: combine_spec(p1, p2) })
                } else {
                    None
                },
            _ => None,
        },
    }
}

/// A loop body that only decrements the current cell by one: `[-]`.
pub open spec fn is_zeroing_body(body: Seq<Node>) -> bool {
    body.len() == 1 && (body[0] matches Node::Increment { amount, offset, .. } && amount == -1 && offset == 0)
}

pub open spec fn is_increment_or_move(n: Node) -> bool {
    n is Increment || n is PointerIncrement
}

/// The net pointer movement of a sequence.
pub open spec fn net_movement(s: Seq<Node>) -> int
    decreases s.len(),
{
    if s.len() == 0 {
        0
    } else {
        net_movement(s.drop_last()) + match s.last() {
            Node::PointerIncrement { amount, .. } => amount as int,
            _ => 0,
        }
    }
}

/// The change to each cell that a sequence of increments and pointer
/// increments makes, by cell index relative to the start, and the final
/// cell index. Each increment adds its amount to the change recorded for
/// the cell it targets: the current cell plus its offset.
pub open spec fn cell_changes_spec(s: Seq<Node>) -> (Map<isize, Cell>, isize)
    decreases s.len(),
{
    if s.len() == 0 {
        (Map::empty(), 0)
    } else {
        let (changes, cell_index) = cell_changes_spec(s.drop_last());
        match s.last() {
            Node::Increment { amount, offset, .. } => {
                let target = vstd::wrapping::isize_specs::wrapping_add(cell_index, offset);
                let current = if changes.contains_key(target) { changes[target] } else { 0i8 };
                (changes.insert(target, vstd::wrapping::i8_specs::wrapping_add(current, amount)), cell_index)
            },
            Node::PointerIncrement { amount, .. } => (changes, vstd::wrapping::isize_specs::wrapping_add(cell_index, amount)),
            _ => (changes, cell_index),
        }
    }
}

/// Does this loop body represent a multiplication? E.g. `[->>>++<<<]`
/// adds twice cell #0 to cell #3: only increments and pointer increments,
/// no net movement, the current cell decremented by one, and at least one
/// other cell changed.
pub open spec fn is_multiply_loop_body(body: Seq<Node>) -> bool {
    &&& forall|i: int| 0 <= i < body.len() ==> is_increment_or_move(#[trigger] body[i])
    &&& net_movement(body) == 0
    &&& cell_changes_spec(body).0.contains_key(0)
    &&& cell_changes_spec(body).0[0] == -1
    &&& cell_changes_spec(body).0.len() >= 2
}

/// Merge `acc` with the nodes after it, left to right, as long as they merge.
pub open spec fn coalesce_from(acc: Node, rest: Seq<Node>, rule: MergeRule) -> Seq<Node>
    decreases rest.len(),
{
    if rest.len() == 0 {
        seq![acc]
    } else {
        match merge_spec(rule, acc, rest[0]) {
            Some(merged) => coalesce_from(merged, rest.drop_first(), rule),
            None => seq![acc] + coalesce_from(rest[0], rest.drop_first(), rule),
        }
    }
}

/// Replace each run of adjacent nodes that merge under `rule` by the node
/// that they merge into.
pub open spec fn coalesce(s: Seq<Node>, rule: MergeRule) -> Seq<Node> {
    if s.len() == 0 {
        Seq::empty()
    } else {
        coalesce_from(s[0], s.drop_first(), rule)
    }
}

/// The set that two adjacent nodes make, if they are an increment and a
/// set, a set and an increment, or two sets, of the same cell.
pub open spec fn merge_set_rules(prev: Node, next: Node) -> Option<Node> {
    match merge_spec(MergeRule::IncrementThenSet, prev, next) {
        Some(m) => Some(m),
        None => match merge_spec(MergeRule::SetThenIncrement, prev, next) {
            Some(m) => Some(m),
            None => merge_spec(MergeRule::SetThenSet, prev, next),
        },
    }
}

/// Push `x` after `kept`, merging it with the last kept node where they
/// make one set, and that set again with the node before: a set absorbs
/// every increment and set of its cell straight before it, and the
/// increments straight after it.
pub open spec fn set_push(kept: Seq<Node>, x: Node) -> Seq<Node>
    decreases kept.len(),
{
    if kept.len() > 0 && merge_set_rules(kept.last(), x) is Some {
        set_push(kept.drop_last(), merge_set_rules(kept.last(), x).unwrap())
    } else {
        kept.push(x)
    }
}

/// The sequence with every set merged with the increments and sets of its
/// cell next to it.
pub open spec fn merge_sets(s: Seq<Node>) -> Seq<Node>
    decreases s.len(),
{
    if s.len() == 0 {
        s
    } else {
        set_push(merge_sets(s.drop_last()), s.last())
    }
}

/// Push `x` after `kept`: an increment of the same cell as the last kept
/// node merges into it; otherwise a last kept increment of zero goes, and
/// `x` meets the node before it.
pub open spec fn increment_push(kept: Seq<Node>, x: Node) -> Seq<Node>
    decreases kept.len(),
{
    if kept.len() > 0 && merge_spec(MergeRule::Increments, kept.last(), x) is Some {
        kept.drop_last().push(merge_spec(MergeRule::Increments, kept.last(), x).unwrap())
    } else if kept.len() > 0 && !not_zero_increment(kept.last()) {
        increment_push(kept.drop_last(), x)
    } else {
        kept.push(x)
    }
}

/// The sequence with increments of the same cell merged, where they meet
/// once the increments of zero between them are gone; only the last node
/// can still be an increment of zero.
pub open spec fn merge_increments(s: Seq<Node>) -> Seq<Node>
    decreases s.len(),
{
    if s.len() == 0 {
        s
    } else {
        increment_push(merge_increments(s.drop_last()), s.last())
    }
}

/// The nodes of `s` for which `keep` holds, in order.
pub open spec fn keep_nodes(s: Seq<Node>, keep: spec_fn(Node) -> bool) -> Seq<Node>
    decreases s.len(),
{
    if s.len() == 0 {
        s
    } else if keep(s.last()) {
        keep_nodes(s.drop_last(), keep).push(s.last())
    } else {
        keep_nodes(s.drop_last(), keep)
    }
}

pub open spec fn not_zero_increment(n: Node) -> bool {
    !(n matches Node::Increment { amount, .. } && amount == 0)
}

pub open spec fn not_zero_ptr_increment(n: Node) -> bool {
    !(n matches Node::PointerIncrement { amount, .. } && amount == 0)
}

/// What a pass does to one node: loop bodies are transformed recursively.
pub open spec fn pass_node(p: Pass, n: Node) -> Node
    decreases n, 2int,
{
    match n {
        Node::Loop { body, position } => match p {
            Pass::ZeroingLoops => if is_zeroing_body(body) {
                Node::SetCell { amount: 0, offset: 0, position }
            } else {
                Node::Loop { body: pass_seq(p, body), position }
            },
            Pass::ExtractMultiply => if is_multiply_loop_body(body) {
                Node::MultiplyMove { changes: cell_changes_spec(body).0.remove(0), position }
            } else {
                Node::Loop { body: pass_seq(p, body), position }
            },
            _ => Node::Loop { body: pass_seq(p, body), position },
        },
        _ => n,
    }
}

/// What a pass does to a sequence of nodes: every node first, then the
/// sequence itself.
pub open spec fn pass_seq(p: Pass, s: Seq<Node>) -> Seq<Node>
    decreases s, 1int,
{
    pass_top(p, pass_each(p, s))
}

/// A pass applied to each node of a sequence on its own.
pub open spec fn pass_each(p: Pass, s: Seq<Node>) -> Seq<Node>
    decreases s, 0int,
{
    Seq::new(s.len(), |i: int| if 0 <= i < s.len() { pass_node(p, s[i]) } else { Node::Read { position: None } })
}

/// What a pass does to one level of the program, once the loop bodies in
/// it have been transformed.
pub open spec fn pass_top(p: Pass, t: Seq<Node>) -> Seq<Node> {
    match p {
        Pass::CombineIncrements => keep_nodes(merge_increments(t), |n: Node| not_zero_increment(n)),
        Pass::CombinePtrIncrements => keep_nodes(coalesce(t, MergeRule::PtrIncrements), |n: Node| not_zero_ptr_increment(n)),
        Pass::ZeroingLoops => t,
        Pass::ExtractMultiply => t,
        Pass::CombineSets => merge_sets(t),
        Pass::DeadLoops => drop_marked(Marker::DeadLoop, t, t.len() as int),
        Pass::ReadClobber => drop_marked(Marker::Clobbered, t, t.len() as int),
        Pass::RedundantSets => drop_marked(Marker::RedundantSet, t, t.len() as int),
    }
}

/// The reasons for which a filtering pass drops a node.
#[derive(Clone, Copy, PartialEq, Eq, Debug, Structural)]
pub enum Marker {
    DeadLoop,
    Clobbered,
    RedundantSet,
}

/// `Set 0` of the current cell.
pub open spec fn is_set_zero(n: Node) -> bool {
    n matches Node::SetCell { amount, offset, .. } && amount == 0 && offset == 0
}

/// A loop whose cell is known to be zero when it is reached: the last
/// change of that cell set it to zero.
pub open spec fn dead_loop_at(s: Seq<Node>, i: int) -> bool {
    &&& s[i] is Loop
    &&& previous_change(s, i) matches Some(p) && is_set_zero(s[p])
}

/// The read at `r` overwrites the change made at `p`, with nothing written
/// out in between; a multiply-move changes other cells too, so it is
/// never dropped.
pub open spec fn clobbers(s: Seq<Node>, r: int, p: int) -> bool {
    &&& s[r] is Read
    &&& previous_change(s, r) == Some(p)
    &&& forall|w: int| p < w < r ==> !(#[trigger] s[w] is Write)
    &&& !(s[p] is MultiplyMove)
}

/// A change of a cell that a later read overwrites.
pub open spec fn clobbered_at(s: Seq<Node>, p: int) -> bool {
    exists|r: int| 0 <= r < s.len() && #[trigger] clobbers(s, r, p)
}

/// A `Set 0` of a cell that is already zero because a loop or a
/// multiply-move just ended on it.
pub open spec fn redundant_set_at(s: Seq<Node>, j: int) -> bool {
    &&& is_set_zero(s[j])
    &&& exists|i: int| 0 <= i < s.len() && (s[i] is Loop || s[i] is MultiplyMove) && #[trigger] next_change(s, i) == Some(j)
}

/// Whether the node at `i` is dropped. A loop is dead where, after the
/// nodes kept before it, the last change of its cell set it to zero: a loop
/// right after a dead loop is then dead too.
pub open spec fn marked(m: Marker, s: Seq<Node>, i: int) -> bool
    decreases i + 1, 0int,
{
    match m {
        Marker::DeadLoop => if i < 0 {
            false
        } else {
            let kept = drop_marked(Marker::DeadLoop, s, i);
            dead_loop_at(kept.push(s[i]), kept.len() as int)
        },
        Marker::Clobbered => clobbered_at(s, i),
        Marker::RedundantSet => redundant_set_at(s, i),
    }
}

/// The first `n` nodes of `s` without those marked under `m`.
pub open spec fn drop_marked(m: Marker, s: Seq<Node>, n: int) -> Seq<Node>
    decreases n, 1int,
{
    if n <= 0 {
        Seq::empty()
    } else if marked(m, s, n - 1) {
        drop_marked(m, s, n - 1)
    } else {
        drop_marked(m, s, n - 1).push(s[n - 1])
    }
}

/// Merge two adjacent nodes under `rule`, or hand both back unchanged.
fn try_merge(rule: MergeRule, prev: AstNode, next: AstNode) -> (r: Result<AstNode, (AstNode, AstNode)>)
    ensures
        match r {
            Ok(merged) => merge_spec(rule, prev@, next@) == Some(merged@),
            Err((p, n)) => merge_spec(rule, prev@, next@) is None && p@ == prev@ && n@ == next@,
        },
{
    match rule {
        MergeRule::Increments => {
            if let AstNode::Increment { amount: prev_amount, offset: prev_offset, position: prev_pos } = prev {
                if let AstNode::Increment { amount, offset, position } = next {
                    if prev_offset == offset {
                        return Ok(AstNode::Increment {
                            amount: amount.wrapping_add(prev_amount),
                            offset,
                            position: prev_pos.combine(position),
                        });
                    }
                }
            }
            Err((prev, next))
        },
        MergeRule::PtrIncrements => {
            if let AstNode::PointerIncrement { amount: prev_amount, position: prev_pos } = prev {
                if let AstNode::PointerIncrement { amount, position } = next {
                    return Ok(AstNode::PointerIncrement {
                        amount: amount.wrapping_add(prev_amount),
                        position: prev_pos.combine(position),
                    });
                }
            }
            Err((prev, next))
        },
        MergeRule::IncrementThenSet => {
            if let (AstNode::Increment { offset: inc_offset, position: inc_pos, .. }, AstNode::SetCell { amount: set_amount, offset: set_offset, position: set_pos }) = (&prev, &next) {
                if *inc_offset == *set_offset {
                    return Ok(AstNode::SetCell { amount: *set_amount, offset: *set_offset, position: set_pos.combine(*inc_pos) });
                }
            }
            Err((prev, next))
        },
        MergeRule::SetThenIncrement => {
            if let (AstNode::SetCell { amount: set_amount, offset: set_offset, position: set_pos }, AstNode::Increment { amount: inc_amount, offset: inc_offset, position: inc_pos }) = (&prev, &next) {
                if *inc_offset == *set_offset {
                    return Ok(AstNode::SetCell { amount: set_amount.wrapping_add(*inc_amount), offset: *set_offset, position: set_pos.combine(*inc_pos) });
                }
            }
            Err((prev, next))
        },
        MergeRule::SetThenSet => {
            if let (AstNode::SetCell { offset: offset1, position: position1, .. }, AstNode::SetCell { amount, offset: offset2, position: position2 }) = (&prev, &next) {
                if *offset1 == *offset2 {
                    return Ok(AstNode::SetCell { amount: *amount, offset: *offset1, position: position1.combine(*position2) });
                }
            }
            Err((prev, next))
        },
    }
}

/// `[-]`?
fn is_zeroing_loop_body(body: &Vec<AstNode>) -> (r: bool)
    ensures
        r == is_zeroing_body(nodes_view(body@)),
{
    body.len() == 1 && matches!(body[0], AstNode::Increment { amount: -1, offset: 0, .. })
}

/// The change to each cell made by a sequence of increments and pointer
/// increments: see `cell_changes_spec`.
fn cell_changes(instrs: &Vec<AstNode>) -> (r: std::collections::HashMap<isize, Cell>)
    ensures
        r@ == cell_changes_spec(nodes_view(instrs@)).0,
{
    broadcast use vstd::std_specs::hash::group_hash_axioms;
    let ghost v = nodes_view(instrs@);
    let mut changes: std::collections::HashMap<isize, Cell> = std::collections::HashMap::new();
    let mut cell_index: isize = 0;
    let mut i: usize = 0;
    assert(v.take(0) =~= Seq::<Node>::empty());
    while i < instrs.len()
        invariant
            i <= instrs@.len(),
            v == nodes_view(instrs@),
            (changes@, cell_index) == cell_changes_spec(v.take(i as int)),
        decreases instrs@.len() - i,
    {
        assert(v.take(i + 1).drop_last() =~= v.take(i as int));
        assert(v.take(i + 1).last() == node_view(instrs@[i as int]));
        match &instrs[i] {
            AstNode::Increment { amount, offset, .. } => {
                let target = cell_index.wrapping_add(*offset);
                let current: Cell = match changes.get(&target) {
                    Some(value) => *value,
                    None => 0,
                };
                changes.insert(target, current.wrapping_add(*amount));
            },
            AstNode::PointerIncrement { amount, .. } => {
                cell_index = cell_index.wrapping_add(*amount);
            },
            _ => {},
        }
        i += 1;
    }
    assert(v.take(instrs@.len() as int) =~= v);
    changes
}

/// See `is_multiply_loop_body`.
fn is_multiply_loop(body: &Vec<AstNode>) -> (r: bool)
    ensures
        r == is_multiply_loop_body(nodes_view(body@)),
{
    broadcast use vstd::std_specs::hash::group_hash_axioms;
    let ghost v = nodes_view(body@);
    // A multiply loop may only contain increments and pointer increments.
    let mut i: usize = 0;
    while i < body.len()
        invariant
            i <= body@.len(),
            v == nodes_view(body@),
            forall|j: int| 0 <= j < i ==> is_increment_or_move(#[trigger] v[j]),
        decreases body@.len() - i,
    {
        match &body[i] {
            AstNode::Increment { .. } | AstNode::PointerIncrement { .. } => {},
            _ => {
                assert(!is_increment_or_move(v[i as int]));
                return false;
            },
        }
        i += 1;
    }
    // A multiply loop must have a net pointer movement of zero.
    let mut net: i128 = 0;
    let mut j: usize = 0;
    assert(v.take(0) =~= Seq::<Node>::empty());
    while j < body.len()
        invariant
            j <= body@.len(),
            v == nodes_view(body@),
            net == net_movement(v.take(j as int)),
            -(j as int) * 9223372036854775808 <= net <= (j as int) * 9223372036854775807,
        decreases body@.len() - j,
    {
        assert(v.take(j + 1).drop_last() =~= v.take(j as int));
        assert(v.take(j + 1).last() == node_view(body@[j as int]));
        if let AstNode::PointerIncrement { amount, .. } = &body[j] {
            net = net + *amount as i128;
        }
        j += 1;
    }
    assert(v.take(body@.len() as int) =~= v);
    if net != 0 {
        return false;
    }
    let changes = cell_changes(body);
    // A multiply loop must decrement cell #0.
    match changes.get(&0) {
        Some(value) => {
            if *value != -1 {
                return false;
            }
        },
        None => {
            return false;
        },
    }
    changes.len() >= 2
}

/// Merge every run of adjacent nodes that merge under `rule`.
fn coalesce_nodes(instrs: Vec<AstNode>, rule: MergeRule) -> (r: Vec<AstNode>)
    ensures
        nodes_view(r@) == coalesce(nodes_view(instrs@), rule),
{
    let ghost v = nodes_view(instrs@);
    let mut result: Vec<AstNode> = Vec::new();
    let mut current: Option<AstNode> = None;
    proof { lemma_nodes_view_empty(); }
    for instr in it: instrs.into_iter()
        invariant
            it.seq() == instrs@,
            v == nodes_view(instrs@),
            match current {
                None => it.index() == 0 && result@.len() == 0,
                Some(c) => 0 < it.index() && nodes_view(result@) + coalesce_from(c@, v.subrange(it.index() as int, v.len() as int), rule) == coalesce(v, rule),
            },
    {
        let ghost k = it.index() as int;
        assert(v[k] == instr@);
        let taken = current;
        match taken {
            None => {
                assert(v.drop_first() =~= v.subrange(1, v.len() as int));
                current = Some(instr);
            },
            Some(prev) => {
                let ghost rest = v.subrange(k, v.len() as int);
                assert(rest.drop_first() =~= v.subrange(k + 1, v.len() as int));
                match try_merge(rule, prev, instr) {
                    Ok(merged) => {
                        current = Some(merged);
                    },
                    Err((p, n)) => {
                        let ghost before = result@;
                        result.push(p);
                        proof {
                            lemma_nodes_view_push(before, p);
                            assert(nodes_view(result@) + coalesce_from(n@, v.subrange(k + 1, v.len() as int), rule)
                                =~= nodes_view(before) + (seq![p@] + coalesce_from(n@, v.subrange(k + 1, v.len() as int), rule)));
                        }
                        current = Some(n);
                    },
                }
            },
        }
    }
    match current {
        None => {
            assert(v.len() == 0);
        },
        Some(c) => {
            let ghost before = result@;
            result.push(c);
            proof {
                lemma_nodes_view_push(before, c);
                assert(v.subrange(v.len() as int, v.len() as int) =~= Seq::<Node>::empty());
            }
        },
    }
    result
}

/// Merge two adjacent nodes into one set, or hand both back unchanged.
fn try_merge_set(prev: AstNode, next: AstNode) -> (r: Result<AstNode, (AstNode, AstNode)>)
    ensures
        match r {
            Ok(merged) => merge_set_rules(prev@, next@) == Some(merged@),
            Err((p, n)) => merge_set_rules(prev@, next@) is None && p@ == prev@ && n@ == next@,
        },
{
    match try_merge(MergeRule::IncrementThenSet, prev, next) {
        Ok(m) => Ok(m),
        Err((p, n)) => match try_merge(MergeRule::SetThenIncrement, p, n) {
            Ok(m) => Ok(m),
            Err((p2, n2)) => try_merge(MergeRule::SetThenSet, p2, n2),
        },
    }
}

/// See `set_push`.
fn set_push_node(result: &mut Vec<AstNode>, x: AstNode)
    ensures
        nodes_view(final(result)@) == set_push(nodes_view(old(result)@), x@),
    decreases old(result)@.len(),
{
    let ghost before = result@;
    match result.pop() {
        None => {
            proof { lemma_nodes_view_empty(); }
            assert(before =~= Seq::<AstNode>::empty());
            result.push(x);
            proof { lemma_nodes_view_push(Seq::<AstNode>::empty(), x); }
            assert(result@ =~= Seq::<AstNode>::empty().push(x));
        },
        Some(last) => {
            let ghost rest = result@;
            proof { lemma_nodes_view_push(rest, last); }
            assert(before =~= rest.push(last));
            assert(nodes_view(before).drop_last() =~= nodes_view(rest));
            assert(nodes_view(before).last() == last@);
            match try_merge_set(last, x) {
                Ok(merged) => {
                    set_push_node(result, merged);
                },
                Err((p, n)) => {
                    result.push(p);
                    proof { lemma_nodes_view_push(rest, p); }
                    let ghost mid = result@;
                    result.push(n);
                    proof { lemma_nodes_view_push(mid, n); }
                    assert(nodes_view(result@) == nodes_view(before).push(x@));
                },
            }
        },
    }
}

/// See `merge_sets`.
fn merge_set_nodes(instrs: Vec<AstNode>) -> (r: Vec<AstNode>)
    ensures
        nodes_view(r@) == merge_sets(nodes_view(instrs@)),
{
    let ghost v = nodes_view(instrs@);
    let mut result: Vec<AstNode> = Vec::new();
    proof { lemma_nodes_view_empty(); }
    assert(v.take(0) =~= Seq::<Node>::empty());
    for instr in it: instrs.into_iter()
        invariant
            it.seq() == instrs@,
            v == nodes_view(instrs@),
            nodes_view(result@) == merge_sets(v.take(it.index() as int)),
    {
        let ghost k = it.index() as int;
        assert(v.take(k + 1).drop_last() =~= v.take(k));
        assert(v.take(k + 1).last() == instr@);
        set_push_node(&mut result, instr);
    }
    assert(v.take(v.len() as int) =~= v);
    result
}

/// See `increment_push`.
fn increment_push_node(result: &mut Vec<AstNode>, x: AstNode)
    ensures
        nodes_view(final(result)@) == increment_push(nodes_view(old(result)@), x@),
    decreases old(result)@.len(),
{
    let ghost before = result@;
    match result.pop() {
        None => {
            proof { lemma_nodes_view_empty(); }
            assert(before =~= Seq::<AstNode>::empty());
            result.push(x);
            proof { lemma_nodes_view_push(Seq::<AstNode>::empty(), x); }
            assert(result@ =~= Seq::<AstNode>::empty().push(x));
        },
        Some(last) => {
            let ghost rest = result@;
            proof { lemma_nodes_view_push(rest, last); }
            assert(before =~= rest.push(last));
            assert(nodes_view(before).drop_last() =~= nodes_view(rest));
            assert(nodes_view(before).last() == last@);
            match try_merge(MergeRule::Increments, last, x) {
                Ok(merged) => {
                    result.push(merged);
                    proof { lemma_nodes_view_push(rest, merged); }
                },
                Err((p, n)) => {
                    if !keeps_increment(&p) {
                        increment_push_node(result, n);
                    } else {
                        result.push(p);
                        proof { lemma_nodes_view_push(rest, p); }
                        let ghost mid = result@;
                        result.push(n);
                        proof { lemma_nodes_view_push(mid, n); }
                        assert(nodes_view(result@) == nodes_view(before).push(x@));
                    }
                },
            }
        },
    }
}

/// See `merge_increments`.
fn merge_increment_nodes(instrs: Vec<AstNode>) -> (r: Vec<AstNode>)
    ensures
        nodes_view(r@) == merge_increments(nodes_view(instrs@)),
{
    let ghost v = nodes_view(instrs@);
    let mut result: Vec<AstNode> = Vec::new();
    proof { lemma_nodes_view_empty(); }
    assert(v.take(0) =~= Seq::<Node>::empty());
    for instr in it: instrs.into_iter()
        invariant
            it.seq() == instrs@,
            v == nodes_view(instrs@),
            nodes_view(result@) == merge_increments(v.take(it.index() as int)),
    {
        let ghost k = it.index() as int;
        assert(v.take(k + 1).drop_last() =~= v.take(k));
        assert(v.take(k + 1).last() == instr@);
        increment_push_node(&mut result, instr);
    }
    assert(v.take(v.len() as int) =~= v);
    result
}

fn keeps_increment(instr: &AstNode) -> (r: bool)
    ensures
        r == not_zero_increment(instr@),
{
    !matches!(instr, AstNode::Increment { amount: 0, .. })
}

fn keeps_ptr_increment(instr: &AstNode) -> (r: bool)
    ensures
        r == not_zero_ptr_increment(instr@),
{
    !matches!(instr, AstNode::PointerIncrement { amount: 0, .. })
}

/// Drop the increments of zero (of a cell, or of the pointer).
fn remove_zero_increments(instrs: Vec<AstNode>, pointer: bool) -> (r: Vec<AstNode>)
    ensures
        pointer ==> nodes_view(r@) == keep_nodes(nodes_view(instrs@), |n: Node| not_zero_ptr_increment(n)),
        !pointer ==> nodes_view(r@) == keep_nodes(nodes_view(instrs@), |n: Node| not_zero_increment(n)),
{
    let ghost v = nodes_view(instrs@);
    let ghost keep = if pointer { |n: Node| not_zero_ptr_increment(n) } else { |n: Node| not_zero_increment(n) };
    let mut result: Vec<AstNode> = Vec::new();
    proof { lemma_nodes_view_empty(); }
    for instr in it: instrs.into_iter()
        invariant
            it.seq() == instrs@,
            v == nodes_view(instrs@),
            keep == (if pointer { |n: Node| not_zero_ptr_increment(n) } else { |n: Node| not_zero_increment(n) }),
            nodes_view(result@) == keep_nodes(v.take(it.index() as int), keep),
    {
        let ghost k = it.index() as int;
        assert(v.take(k + 1).drop_last() =~= v.take(k));
        assert(v.take(k + 1).last() == instr@);
        let kept = if pointer { keeps_ptr_increment(&instr) } else { keeps_increment(&instr) };
        if kept {
            let ghost before = result@;
            result.push(instr);
            proof { lemma_nodes_view_push(before, result@.last()); }
        }
    }
    assert(v.take(v.len() as int) =~= v);
    result
}

proof fn lemma_node_view_loop(body: Vec<AstNode>, position: Option<Position>)
    ensures
        node_view(AstNode::Loop { body, position }) == (Node::Loop { body: nodes_view(body@), position }),
{
}

/// Transform a loop body, and then the level that holds it.
fn apply_pass_node(p: Pass, instr: AstNode) -> (r: AstNode)
    ensures
        r@ == pass_node(p, instr@),
    decreases instr,
{
    match instr {
        AstNode::Loop { body, position } => {
            proof { lemma_node_view_loop(body, position); }
            match p {
                Pass::ZeroingLoops => {
                    if is_zeroing_loop_body(&body) {
                        return AstNode::SetCell { amount: 0, offset: 0, position };
                    }
                },
                Pass::ExtractMultiply => {
                    if is_multiply_loop(&body) {
                        let mut changes = cell_changes(&body);
                        // MultiplyMove is for where we move to, so ignore
                        // the cell we're moving from.
                        changes.remove(&0);
                        return AstNode::MultiplyMove { changes, position };
                    }
                },
                _ => {},
            }
            AstNode::Loop { body: apply_pass(p, body), position }
        },
        other => other,
    }
}

/// Apply a pass to every loop body, and then to this level.
fn apply_pass(p: Pass, instrs: Vec<AstNode>) -> (r: Vec<AstNode>)
    ensures
        nodes_view(r@) == pass_seq(p, nodes_view(instrs@)),
    decreases instrs,
{
    let ghost v = nodes_view(instrs@);
    let ghost orig = instrs;
    let mut mapped: Vec<AstNode> = Vec::new();
    for instr in it: instrs.into_iter()
        invariant
            it.seq() == orig@,
            v == nodes_view(orig@),
            mapped@.len() == it.index(),
            forall|i: int| 0 <= i < it.index() ==> node_view(#[trigger] mapped@[i]) == pass_node(p, v[i]),
    {
        let ghost k = it.index() as int;
        assert(orig@[k] == instr);
        assert(decreases_to!(orig => instr));
        let transformed = apply_pass_node(p, instr);
        mapped.push(transformed);
    }
    assert(nodes_view(mapped@) =~= pass_each(p, v));
    apply_top(p, mapped)
}

fn apply_top(p: Pass, instrs: Vec<AstNode>) -> (r: Vec<AstNode>)
    ensures
        nodes_view(r@) == pass_top(p, nodes_view(instrs@)),
{
    match p {
        Pass::CombineIncrements => remove_zero_increments(merge_increment_nodes(instrs), false),
        Pass::CombinePtrIncrements => remove_zero_increments(coalesce_nodes(instrs, MergeRule::PtrIncrements), true),
        Pass::ZeroingLoops => instrs,
        Pass::ExtractMultiply => instrs,
        Pass::CombineSets => merge_set_nodes(instrs),
        Pass::DeadLoops => drop_dead_loops(instrs),
        Pass::ReadClobber => {
            let marks = clobber_marks(&instrs);
            drop_marked_nodes(instrs, &marks, Ghost(Marker::Clobbered))
        },
        Pass::RedundantSets => {
            let marks = redundant_set_marks(&instrs);
            drop_marked_nodes(instrs, &marks, Ghost(Marker::RedundantSet))
        },
    }
}

/// Keep the nodes whose mark is false.
fn drop_marked_nodes(instrs: Vec<AstNode>, marks: &Vec<bool>, Ghost(m): Ghost<Marker>) -> (r: Vec<AstNode>)
    requires
        marks@.len() == instrs@.len(),
        forall|i: int| 0 <= i < instrs@.len() ==> #[trigger] marks@[i] == marked(m, nodes_view(instrs@), i),
    ensures
        nodes_view(r@) == drop_marked(m, nodes_view(instrs@), instrs@.len() as int),
{
    let ghost v = nodes_view(instrs@);
    let mut result: Vec<AstNode> = Vec::new();
    let mut index: usize = 0;
    let n = instrs.len();
    proof { lemma_nodes_view_empty(); }
    for instr in it: instrs.into_iter()
        invariant
            it.seq() == instrs@,
            v == nodes_view(instrs@),
            n == instrs@.len(),
            marks@.len() == instrs@.len(),
            index == it.index(),
            forall|i: int| 0 <= i < instrs@.len() ==> #[trigger] marks@[i] == marked(m, v, i),
            nodes_view(result@) == drop_marked(m, v, index as int),
    {
        assert(v[index as int] == instr@);
        if !marks[index] {
            let ghost before = result@;
            result.push(instr);
            proof { lemma_nodes_view_push(before, result@.last()); }
        }
        index += 1;
    }
    result
}

/// A vector of `n` falses.
fn no_marks(n: usize) -> (r: Vec<bool>)
    ensures
        r@.len() == n,
        forall|i: int| 0 <= i < n ==> !#[trigger] r@[i],
{
    let mut marks: Vec<bool> = Vec::new();
    while marks.len() < n
        invariant
            marks@.len() <= n,
            forall|i: int| 0 <= i < marks@.len() ==> !#[trigger] marks@[i],
        decreases n - marks@.len(),
    {
        marks.push(false);
    }
    marks
}

fn is_set_zero_node(instr: &AstNode) -> (r: bool)
    ensures
        r == is_set_zero(instr@),
{
    matches!(instr, AstNode::SetCell { amount: 0, offset: 0, .. })
}

/// Drop the loops that can never be entered, judging each loop by the
/// nodes kept before it.
fn drop_dead_loops(instrs: Vec<AstNode>) -> (r: Vec<AstNode>)
    ensures
        nodes_view(r@) == drop_marked(Marker::DeadLoop, nodes_view(instrs@), instrs@.len() as int),
{
    let ghost v = nodes_view(instrs@);
    let mut result: Vec<AstNode> = Vec::new();
    proof { lemma_nodes_view_empty(); }
    for instr in it: instrs.into_iter()
        invariant
            it.seq() == instrs@,
            v == nodes_view(instrs@),
            nodes_view(result@) == drop_marked(Marker::DeadLoop, v, it.index() as int),
    {
        let ghost k = it.index() as int;
        let ghost kept = result@;
        assert(v[k] == instr@);
        let is_loop = matches!(instr, AstNode::Loop { .. });
        result.push(instr);
        proof { lemma_nodes_view_push(kept, result@.last()); }
        let last = result.len() - 1;
        let mut dead = false;
        if is_loop {
            if let Some(p) = previous_cell_change(&result, last) {
                proof { lemma_prev_change_bounds(nodes_view(result@), last as int, 0); }
                assert(nodes_view(result@)[p as int] == node_view(result@[p as int]));
                dead = is_set_zero_node(&result[p]);
            }
        }
        assert(nodes_view(result@) == nodes_view(kept).push(v[k]));
        assert(nodes_view(kept).len() == last);
        assert(nodes_view(result@)[last as int] == v[k]);
        assert(dead == dead_loop_at(nodes_view(result@), last as int));
        assert(marked(Marker::DeadLoop, v, k) == dead_loop_at(nodes_view(kept).push(v[k]), nodes_view(kept).len() as int));
        if dead {
            result.pop();
            assert(nodes_view(result@) =~= nodes_view(kept));
        }
    }
    assert(v.len() == instrs@.len());
    result
}

/// Mark the changes of cells that a read overwrites before anything is
/// written out.
fn clobber_marks(instrs: &Vec<AstNode>) -> (r: Vec<bool>)
    ensures
        r@.len() == instrs@.len(),
        forall|i: int| 0 <= i < instrs@.len() ==> #[trigger] r@[i] == clobbered_at(nodes_view(instrs@), i),
{
    let ghost v = nodes_view(instrs@);
    let n = instrs.len();
    let mut marks = no_marks(n);
    let mut last_write_index: Option<usize> = None;
    let mut index: usize = 0;
    while index < n
        invariant
            index <= n == instrs@.len(),
            v == nodes_view(instrs@),
            marks@.len() == n,
            forall|p: int| 0 <= p < n ==> #[trigger] marks@[p] == exists|r: int| 0 <= r < index && #[trigger] clobbers(v, r, p),
            match last_write_index {
                None => forall|w: int| 0 <= w < index ==> !(#[trigger] v[w] is Write),
                Some(lw) => lw < index && v[lw as int] is Write && forall|w: int| lw < w < index ==> !(#[trigger] v[w] is Write),
            },
        decreases n - index,
    {
        assert(v[index as int] == node_view(instrs@[index as int]));
        let ghost old_marks = marks@;
        match &instrs[index] {
            AstNode::Read { .. } => {
                let prev = previous_cell_change(instrs, index);
                proof { lemma_prev_change_bounds(v, index as int, 0); }
                match prev {
                    Some(p) => {
                        assert(v[p as int] == node_view(instrs@[p as int]));
                        let written_after = match last_write_index {
                            Some(lw) => lw > p,
                            None => false,
                        };
                        let multiply = matches!(instrs[p], AstNode::MultiplyMove { .. });
                        if !written_after && !multiply {
                            marks.set(p, true);
                            assert(clobbers(v, index as int, p as int));
                        } else {
                            assert(!clobbers(v, index as int, p as int)) by {
                                if written_after {
                                    let lw = last_write_index.unwrap();
                                    assert(v[lw as int] is Write);
                                }
                            }
                        }
                        assert forall|q: int| 0 <= q < n implies #[trigger] marks@[q] == exists|r: int| 0 <= r < index + 1 && #[trigger] clobbers(v, r, q) by {
                            if q != p {
                                assert(!clobbers(v, index as int, q));
                                if exists|r: int| 0 <= r < index + 1 && #[trigger] clobbers(v, r, q) {
                                    let r = choose|r: int| 0 <= r < index + 1 && #[trigger] clobbers(v, r, q);
                                    assert(r != index);
                                }
                            } else if exists|r: int| 0 <= r < index + 1 && #[trigger] clobbers(v, r, q) {
                                let r = choose|r: int| 0 <= r < index + 1 && #[trigger] clobbers(v, r, q);
                                if !marks@[q] {
                                    assert(r != index);
                                    assert(old_marks[q]);
                                }
                            }
                        }
                    },
                    None => {
                        assert forall|q: int| 0 <= q < n implies #[trigger] marks@[q] == exists|r: int| 0 <= r < index + 1 && #[trigger] clobbers(v, r, q) by {
                            assert(!clobbers(v, index as int, q));
                            if exists|r: int| 0 <= r < index + 1 && #[trigger] clobbers(v, r, q) {
                                let r = choose|r: int| 0 <= r < index + 1 && #[trigger] clobbers(v, r, q);
                                assert(r != index);
                            }
                        }
                    },
                }
            },
            AstNode::Write { .. } => {
                last_write_index = Some(index);
                assert forall|q: int| 0 <= q < n implies #[trigger] marks@[q] == exists|r: int| 0 <= r < index + 1 && #[trigger] clobbers(v, r, q) by {
                    assert(!clobbers(v, index as int, q));
                    if exists|r: int| 0 <= r < index + 1 && #[trigger] clobbers(v, r, q) {
                        let r = choose|r: int| 0 <= r < index + 1 && #[trigger] clobbers(v, r, q);
                        assert(r != index);
                    }
                }
            },
            _ => {
                assert forall|q: int| 0 <= q < n implies #[trigger] marks@[q] == exists|r: int| 0 <= r < index + 1 && #[trigger] clobbers(v, r, q) by {
                    assert(!clobbers(v, index as int, q));
                    if exists|r: int| 0 <= r < index + 1 && #[trigger] clobbers(v, r, q) {
                        let r = choose|r: int| 0 <= r < index + 1 && #[trigger] clobbers(v, r, q);
                        assert(r != index);
                    }
                }
            },
        }
        index += 1;
    }
    assert forall|p: int| 0 <= p < n implies #[trigger] marks@[p] == clobbered_at(v, p) by {
        if marks@[p] {
            let r = choose|r: int| 0 <= r < n && #[trigger] clobbers(v, r, p);
            assert(0 <= r < v.len() && clobbers(v, r, p));
        }
    }
    marks
}

/// Mark the sets to zero of cells that a loop or multiply-move has just
/// left at zero.
fn redundant_set_marks(instrs: &Vec<AstNode>) -> (r: Vec<bool>)
    ensures
        r@.len() == instrs@.len(),
        forall|i: int| 0 <= i < instrs@.len() ==> #[trigger] r@[i] == redundant_set_at(nodes_view(instrs@), i),
{
    let ghost v = nodes_view(instrs@);
    let n = instrs.len();
    let mut marks = no_marks(n);
    let mut index: usize = 0;
    while index < n
        invariant
            index <= n == instrs@.len(),
            v == nodes_view(instrs@),
            marks@.len() == n,
            forall|j: int| 0 <= j < n ==> #[trigger] marks@[j] == (is_set_zero(v[j]) && exists|i: int|
                0 <= i < index && (v[i] is Loop || v[i] is MultiplyMove) && #[trigger] next_change(v, i) == Some(j)),
        decreases n - index,
    {
        assert(v[index as int] == node_view(instrs@[index as int]));
        let ghost old_marks = marks@;
        let ends_zeroed = matches!(instrs[index], AstNode::Loop { .. } | AstNode::MultiplyMove { .. });
        if ends_zeroed {
            if let Some(next) = next_cell_change(instrs, index) {
                proof { lemma_next_change_bounds(v, index + 1, 0); }
                assert(v[next as int] == node_view(instrs@[next as int]));
                if is_set_zero_node(&instrs[next]) {
                    marks.set(next, true);
                }
            }
        }
        assert forall|j: int| 0 <= j < n implies #[trigger] marks@[j] == (is_set_zero(v[j]) && exists|i: int|
            0 <= i < index + 1 && (v[i] is Loop || v[i] is MultiplyMove) && #[trigger] next_change(v, i) == Some(j)) by {
            if exists|i: int| 0 <= i < index + 1 && (v[i] is Loop || v[i] is MultiplyMove) && #[trigger] next_change(v, i) == Some(j) {
                let i = choose|i: int| 0 <= i < index + 1 && (v[i] is Loop || v[i] is MultiplyMove) && #[trigger] next_change(v, i) == Some(j);
                if i != index && is_set_zero(v[j]) {
                    assert(old_marks[j]);
                }
            }
        }
        index += 1;
    }
    marks
}

/// Combine consecutive increments of the same cell into a single
/// increment, and drop increments of zero; increments that meet once an
/// increment of zero between them is gone combine too.
pub fn combine_increments(instrs: Vec<AstNode>) -> (r: Vec<AstNode>)
    ensures
        nodes_view(r@) == pass_seq(Pass::CombineIncrements, nodes_view(instrs@)),
{
    apply_pass(Pass::CombineIncrements, instrs)
}

/// Combine consecutive pointer increments into a single pointer
/// increment, and drop pointer increments of zero.
pub fn combine_ptr_increments(instrs: Vec<AstNode>) -> (r: Vec<AstNode>)
    ensures
        nodes_view(r@) == pass_seq(Pass::CombinePtrIncrements, nodes_view(instrs@)),
{
    apply_pass(Pass::CombinePtrIncrements, instrs)
}

/// Convert `[-]` to a set of zero, in every loop.
pub fn zeroing_loops(instrs: Vec<AstNode>) -> (r: Vec<AstNode>)
    ensures
        nodes_view(r@) == pass_seq(Pass::ZeroingLoops, nodes_view(instrs@)),
{
    apply_pass(Pass::ZeroingLoops, instrs)
}

/// Replace multiply loops by `MultiplyMove`.
pub fn extract_multiply(instrs: Vec<AstNode>) -> (r: Vec<AstNode>)
    ensures
        nodes_view(r@) == pass_seq(Pass::ExtractMultiply, nodes_view(instrs@)),
{
    apply_pass(Pass::ExtractMultiply, instrs)
}

/// Remove any loops where we know the current cell is zero, judging each
/// loop by the nodes kept before it, so that a loop right after a dead loop
/// goes too.
pub fn remove_dead_loops(instrs: Vec<AstNode>) -> (r: Vec<AstNode>)
    ensures
        nodes_view(r@) == pass_seq(Pass::DeadLoops, nodes_view(instrs@)),
{
    apply_pass(Pass::DeadLoops, instrs)
}

/// Don't bother updating cells if they're immediately overwritten by a
/// value from stdin.
pub fn remove_read_clobber(instrs: Vec<AstNode>) -> (r: Vec<AstNode>)
    ensures
        nodes_view(r@) == pass_seq(Pass::ReadClobber, nodes_view(instrs@)),
{
    apply_pass(Pass::ReadClobber, instrs)
}

/// The program without the sets to zero that a loop or multiply-move makes
/// redundant, and without a leading set to zero, since cells start at zero.
pub open spec fn remove_redundant_sets_spec(s: Seq<Node>) -> Seq<Node> {
    let reduced = pass_seq(Pass::RedundantSets, s);
    if reduced.len() > 0 && is_set_zero(reduced[0]) {
        reduced.drop_first()
    } else {
        reduced
    }
}

/// Remove sets to zero that cannot change anything.
pub fn remove_redundant_sets(instrs: Vec<AstNode>) -> (r: Vec<AstNode>)
    ensures
        nodes_view(r@) == remove_redundant_sets_spec(nodes_view(instrs@)),
{
    let mut reduced = apply_pass(Pass::RedundantSets, instrs);
    if reduced.len() > 0 && is_set_zero_node(&reduced[0]) {
        let ghost before = reduced@;
        assert(nodes_view(before)[0] == node_view(before[0]));
        reduced.remove(0);
        assert(nodes_view(reduced@) =~= nodes_view(before).drop_first());
    }
    reduced
}

/// Combine set instructions with other set instructions or increments of
/// the same cell next to them, again and again, so that a set absorbs every
/// increment of its cell that runs into it.
pub fn combine_set_and_increments(instrs: Vec<AstNode>) -> (r: Vec<AstNode>)
    ensures
        nodes_view(r@) == pass_seq(Pass::CombineSets, nodes_view(instrs@)),
{
    apply_pass(Pass::CombineSets, instrs)
}

/// A range of one character at the start of `position`.
pub open spec fn start_position(position: Option<Position>) -> Option<Position> {
    match position {
        Some(p) => Some(Position { start: p.start, end: p.start }),
        None => None,
    }
}

/// A range of one character at the end of `position`.
pub open spec fn end_position(position: Option<Position>) -> Option<Position> {
    match position {
        Some(p) => Some(Position { start: p.end, end: p.end }),
        None => None,
    }
}

pub open spec fn set_zero_at(position: Option<Position>) -> Node {
    Node::SetCell { amount: 0, offset: 0, position }
}

/// A node with a known-zero annotation after every loop inside it.
pub open spec fn known_zero_node(n: Node) -> Node
    decreases n, 0int, 0int,
{
    match n {
        Node::Loop { body, position } => Node::Loop { body: known_zero_prefix(body, body.len() as int), position },
        other => other,
    }
}

/// The first `n` nodes of `s` with a `Set 0` after each loop (at the `]`),
/// unless the node after the loop is that very set already.
pub open spec fn known_zero_prefix(s: Seq<Node>, n: int) -> Seq<Node>
    decreases s, 1int, n,
{
    if n <= 0 || n > s.len() {
        Seq::empty()
    } else {
        let before = known_zero_prefix(s, n - 1);
        match s[n - 1] {
            Node::Loop { position, .. } => {
                let with_loop = before.push(known_zero_node(s[n - 1]));
                if n < s.len() && s[n] == set_zero_at(end_position(position)) {
                    with_loop
                } else {
                    with_loop.push(set_zero_at(end_position(position)))
                }
            },
            other => before.push(other),
        }
    }
}

pub open spec fn known_zero_inner(s: Seq<Node>) -> Seq<Node> {
    known_zero_prefix(s, s.len() as int)
}

/// The program with the knowledge that the current cell is zero made
/// explicit: at the start, where cells are initialised to zero, and after
/// every loop.
pub open spec fn annotate_known_zero_spec(s: Seq<Node>) -> Seq<Node> {
    let position = if s.len() == 0 { None } else { start_position(node_position(s[0])) };
    if s.len() > 0 && s[0] == set_zero_at(position) {
        known_zero_inner(s)
    } else {
        seq![set_zero_at(position)] + known_zero_inner(s)
    }
}

fn same_position(a: Option<Position>, b: Option<Position>) -> (r: bool)
    ensures
        r == (a == b),
{
    match (a, b) {
        (Some(x), Some(y)) => x.start == y.start && x.end == y.end,
        (None, None) => true,
        _ => false,
    }
}

/// Is this node a set to zero of the current cell at `position`?
fn is_set_zero_with(instr: &AstNode, position: Option<Position>) -> (r: bool)
    ensures
        r == (instr@ == set_zero_at(position)),
{
    match instr {
        AstNode::SetCell { amount, offset, position: p } => *amount == 0 && *offset == 0 && same_position(*p, position),
        _ => false,
    }
}

fn known_zero_loop(instr: &AstNode) -> (r: AstNode)
    ensures
        r@ == known_zero_node(instr@),
    decreases instr,
{
    match instr {
        AstNode::Loop { body, position } => {
            let annotated = annotate_known_zero_inner(body.as_slice());
            proof { lemma_node_view_loop(annotated, *position); }
            AstNode::Loop { body: annotated, position: *position }
        },
        other => clone_node(other),
    }
}

/// Add a set to zero after every loop, at every depth.
fn annotate_known_zero_inner(instrs: &[AstNode]) -> (r: Vec<AstNode>)
    ensures
        nodes_view(r@) == known_zero_inner(nodes_view(instrs@)),
    decreases instrs@,
{
    let ghost v = nodes_view(instrs@);
    let mut result: Vec<AstNode> = Vec::new();
    let mut i: usize = 0;
    proof { lemma_nodes_view_empty(); }
    while i < instrs.len()
        invariant
            i <= instrs@.len(),
            v == nodes_view(instrs@),
            nodes_view(result@) == known_zero_prefix(v, i as int),
        decreases instrs@.len() - i,
    {
        assert(v[i as int] == node_view(instrs@[i as int]));
        let ghost before = result@;
        match &instrs[i] {
            AstNode::Loop { position, .. } => {
                let annotated = known_zero_loop(&instrs[i]);
                result.push(annotated);
                proof { lemma_nodes_view_push(before, annotated); }
                // Treat this set as positioned at the ].
                let set_pos = match position {
                    Some(p) => Some(Position { start: p.end, end: p.end }),
                    None => None,
                };
                let next_is_set = if i + 1 < instrs.len() {
                    assert(v[i + 1] == node_view(instrs@[i + 1]));
                    is_set_zero_with(&instrs[i + 1], set_pos)
                } else {
                    false
                };
                if !next_is_set {
                    let ghost with_loop = result@;
                    let set_instr = AstNode::SetCell { amount: 0, offset: 0, position: set_pos };
                    result.push(set_instr);
                    proof { lemma_nodes_view_push(with_loop, set_instr); }
                }
            },
            other => {
                let copy = clone_node(other);
                result.push(copy);
                proof { lemma_nodes_view_push(before, copy); }
            },
        }
        i += 1;
    }
    result
}

/// Cells in BF are initialised to zero, so the current cell is known to be
/// zero at the start and after every loop: say so with a set to zero.
pub fn annotate_known_zero(instrs: Vec<AstNode>) -> (r: Vec<AstNode>)
    ensures
        nodes_view(r@) == annotate_known_zero_spec(nodes_view(instrs@)),
{
    let ghost v = nodes_view(instrs@);
    let mut result: Vec<AstNode> = Vec::new();
    let position = if instrs.len() == 0 {
        None
    } else {
        assert(v[0] == node_view(instrs@[0]));
        match get_position(&instrs[0]) {
            Some(first) => Some(Position { start: first.start, end: first.start }),
            None => None,
        }
    };
    let already_set = instrs.len() > 0 && is_set_zero_with(&instrs[0], position);
    if !already_set {
        let set_instr = AstNode::SetCell { amount: 0, offset: 0, position };
        result.push(set_instr);
        proof { lemma_nodes_view_empty(); lemma_nodes_view_push(Seq::empty(), set_instr); }
    } else {
        proof { lemma_nodes_view_empty(); }
    }
    let inner = annotate_known_zero_inner(instrs.as_slice());
    let ghost before = result@;
    let mut inner_mut = inner;
    result.append(&mut inner_mut);
    assert(nodes_view(result@) =~= nodes_view(before) + nodes_view(inner@));
    result
}

/// Nodes that have an effect that can be seen, or may not terminate.
pub open spec fn has_effect(n: Node) -> bool {
    n is Read || n is Write || n is Loop
}

/// The length of `s` once the nodes after the last one with an effect are
/// gone (looking no further than the first `n`).
pub open spec fn effect_end(s: Seq<Node>, n: int) -> int
    decreases n,
{
    if n <= 0 {
        0
    } else if has_effect(s[n - 1]) {
        n
    } else {
        effect_end(s, n - 1)
    }
}

/// Folds a further position into the positions seen so far.
pub open spec fn add_position(acc: Option<Position>, p: Option<Position>) -> Option<Position> {
    match p {
        None => acc,
        Some(_) => match acc {
            None => p,
            Some(_) => combine_spec(acc, p),
        },
    }
}

/// The positions of the nodes from index `i` to the end, combined from the
/// last node backwards.
pub open spec fn tail_position(s: Seq<Node>, i: int) -> Option<Position>
    decreases s.len() - i,
{
    if i < 0 || i >= s.len() {
        None
    } else {
        add_position(tail_position(s, i + 1), node_position(s[i]))
    }
}

/// What removing the pure code at the end gives: the program up to its
/// last node with an effect, and, where anything went, the position of
/// what went.
pub open spec fn remove_pure_code_spec(s: Seq<Node>) -> (Seq<Node>, Option<Option<Position>>) {
    let k = effect_end(s, s.len() as int);
    (s.take(k), if k == s.len() { None } else { Some(tail_position(s, k)) })
}

pub proof fn lemma_effect_end_bounds(s: Seq<Node>, n: int)
    ensures
        0 <= n ==> 0 <= effect_end(s, n) <= n,
        effect_end(s, n) > 0 ==> has_effect(s[effect_end(s, n) - 1]),
        forall|j: int| effect_end(s, n) <= j < n ==> !has_effect(#[trigger] s[j]),
    decreases n,
{
    if n > 0 {
        lemma_effect_end_bounds(s, n - 1);
    }
}

/// Remove code at the end of the program that has no side effects: no
/// reads or writes come after it, nor loops (which may not terminate). A
/// warning says where the removed code was.
pub fn remove_pure_code(instrs: Vec<AstNode>) -> (r: (Vec<AstNode>, Option<Warning>))
    ensures
        nodes_view(r.0@) == remove_pure_code_spec(nodes_view(instrs@)).0,
        match r.1 {
            None => remove_pure_code_spec(nodes_view(instrs@)).1 is None,
            Some(w) => {
                &&& remove_pure_code_spec(nodes_view(instrs@)).1 == Some(w.position)
                &&& w.message@ == "These instructions have no effect."@
            },
        },
{
    let ghost v = nodes_view(instrs@);
    let ghost orig = instrs@;
    let mut instrs = instrs;
    let mut position: Option<Position> = None;
    let mut removed = false;
    let mut done = false;
    proof { lemma_effect_end_bounds(v, v.len() as int); }
    while !done && instrs.len() > 0
        invariant
            instrs@.len() <= orig.len(),
            instrs@ == orig.take(instrs@.len() as int),
            v == nodes_view(orig),
            effect_end(v, v.len() as int) <= instrs@.len(),
            done ==> effect_end(v, v.len() as int) == instrs@.len(),
            instrs@.len() == 0 ==> effect_end(v, v.len() as int) == 0,
            forall|j: int| effect_end(v, v.len() as int) <= j < v.len() ==> !has_effect(#[trigger] v[j]),
            removed == (instrs@.len() < orig.len()),
            position == tail_position(v, instrs@.len() as int),
        decreases instrs@.len() + (if done { 0int } else { 1int }),
    {
        let last = instrs.len() - 1;
        assert(instrs@[last as int] == orig[last as int]);
        assert(v[last as int] == node_view(orig[last as int]));
        let effect = matches!(instrs[last], AstNode::Read { .. } | AstNode::Write { .. } | AstNode::Loop { .. });
        if effect {
            done = true;
            proof { lemma_effect_end_dominated(v, v.len() as int, last as int); }
        } else {
            assert(!has_effect(v[last as int]));
            proof { lemma_effect_end_bounds(v, v.len() as int); }
            assert(effect_end(v, v.len() as int) != last + 1);
            let popped = instrs.pop().unwrap();
            let pos = get_position(&popped);
            position = match pos {
                None => position,
                Some(_) => match position {
                    None => pos,
                    Some(_) => position.combine(pos),
                },
            };
            removed = true;
            assert(instrs@ =~= orig.take(instrs@.len() as int));
        }
    }
    let warning = if removed {
        Some(Warning { message: "These instructions have no effect.".to_string(), position })
    } else {
        None
    };
    assert(instrs@ =~= orig.take(effect_end(v, v.len() as int)));
    assert(nodes_view(instrs@) =~= v.take(effect_end(v, v.len() as int)));
    (instrs, warning)
}

/// If the node at `k` has an effect and none after it up to `n` does, the
/// pure tail starts right after `k`.
proof fn lemma_effect_end_dominated(s: Seq<Node>, n: int, k: int)
    requires
        0 <= k < n <= s.len(),
        has_effect(s[k]),
        forall|j: int| k < j < n ==> !has_effect(#[trigger] s[j]),
    ensures
        effect_end(s, n) == k + 1,
    decreases n,
{
    if n > k + 1 {
        lemma_effect_end_dominated(s, n - 1, k);
    }
}

/// The offset of a cell change; zero for other nodes.
pub open spec fn node_offset(n: Node) -> isize {
    match n {
        Node::Increment { offset, .. } => offset,
        Node::SetCell { offset, .. } => offset,
        _ => 0,
    }
}

/// Increments, sets and pointer increments: the nodes that offset sorting
/// reorders.
pub open spec fn is_offset_node(n: Node) -> bool {
    n is Increment || n is SetCell || n is PointerIncrement
}

/// `x` inserted into `sorted` after every node whose offset is not larger
/// than its own: one step of a stable sort by offset.
pub open spec fn insert_by_offset(sorted: Seq<Node>, x: Node) -> Seq<Node>
    decreases sorted.len(),
{
    if sorted.len() == 0 {
        seq![x]
    } else if node_offset(sorted.last()) <= node_offset(x) {
        sorted.push(x)
    } else {
        insert_by_offset(sorted.drop_last(), x).push(sorted.last())
    }
}

/// A cell change moved by `shift` cells.
pub open spec fn with_offset(n: Node, shift: isize) -> Node {
    match n {
        Node::Increment { amount, offset, position } =>
            Node::Increment { amount, offset: vstd::wrapping::isize_specs::wrapping_add(offset, shift), position },
        Node::SetCell { amount, offset, position } =>
            Node::SetCell { amount, offset: vstd::wrapping::isize_specs::wrapping_add(offset, shift), position },
        other => other,
    }
}

/// After the first `n` nodes of a run of offset nodes: its cell changes,
/// each with the pointer movement before it added to its offset and stably
/// sorted by offset; the pointer movement; and the position of the last
/// pointer increment, if there was one.
pub open spec fn shift_prefix(run: Seq<Node>, n: int) -> (Seq<Node>, isize, Option<Option<Position>>)
    decreases n,
{
    if n <= 0 || n > run.len() {
        (Seq::empty(), 0, None)
    } else {
        let (sorted, shift, last) = shift_prefix(run, n - 1);
        match run[n - 1] {
            Node::PointerIncrement { amount, position } =>
                (sorted, vstd::wrapping::isize_specs::wrapping_add(shift, amount), Some(position)),
            Node::Increment { .. } => (insert_by_offset(sorted, with_offset(run[n - 1], shift)), shift, last),
            Node::SetCell { .. } => (insert_by_offset(sorted, with_offset(run[n - 1], shift)), shift, last),
            _ => (sorted, shift, last),
        }
    }
}

/// A run of offset nodes as cell changes sorted by offset, followed by one
/// pointer increment for the whole movement, if it is not zero.
pub open spec fn sort_sequence_spec(run: Seq<Node>) -> Seq<Node> {
    let (sorted, shift, last) = shift_prefix(run, run.len() as int);
    if shift != 0 {
        sorted.push(Node::PointerIncrement { amount: shift, position: match last { Some(p) => p, None => None } })
    } else {
        sorted
    }
}

/// A node with its loop body sorted by offset.
pub open spec fn sort_node(x: Node) -> Node
    decreases x, 0int, 0int,
{
    match x {
        Node::Loop { body, position } => {
            let (done, run) = sort_prefix(body, body.len() as int);
            Node::Loop { body: done + sort_sequence_spec(run), position }
        },
        other => other,
    }
}

/// After the first `n` nodes: the output so far, and the run of offset
/// nodes not yet sorted.
pub open spec fn sort_prefix(s: Seq<Node>, n: int) -> (Seq<Node>, Seq<Node>)
    decreases s, 1int, n,
{
    if n <= 0 || n > s.len() {
        (Seq::empty(), Seq::empty())
    } else {
        let (done, run) = sort_prefix(s, n - 1);
        if is_offset_node(s[n - 1]) {
            (done, run.push(s[n - 1]))
        } else {
            ((done + sort_sequence_spec(run)).push(sort_node(s[n - 1])), Seq::empty())
        }
    }
}

/// Every maximal run of offset nodes sorted by offset, at every depth.
pub open spec fn sort_by_offset_spec(s: Seq<Node>) -> Seq<Node> {
    let (done, run) = sort_prefix(s, s.len() as int);
    done + sort_sequence_spec(run)
}

proof fn lemma_insert_by_offset_at(s: Seq<Node>, x: Node, j: int)
    requires
        0 <= j <= s.len(),
        j == 0 || node_offset(s[j - 1]) <= node_offset(x),
        forall|t: int| j <= t < s.len() ==> node_offset(#[trigger] s[t]) > node_offset(x),
    ensures
        insert_by_offset(s, x) == s.insert(j, x),
    decreases s.len(),
{
    if s.len() == j {
        assert(s.insert(j, x) =~= s.push(x));
    } else {
        lemma_insert_by_offset_at(s.drop_last(), x, j);
        assert(s.insert(j, x) =~= s.drop_last().insert(j, x).push(s.last()));
    }
}

fn offset_of(instr: &AstNode) -> (r: isize)
    ensures
        r == node_offset(instr@),
{
    match instr {
        AstNode::Increment { offset, .. } => *offset,
        AstNode::SetCell { offset, .. } => *offset,
        _ => 0,
    }
}

fn is_offset_instr(instr: &AstNode) -> (r: bool)
    ensures
        r == is_offset_node(instr@),
{
    matches!(instr, AstNode::Increment { .. } | AstNode::SetCell { .. } | AstNode::PointerIncrement { .. })
}

/// Insert `x` after every node whose offset is not larger.
fn insert_sorted(sorted: Vec<AstNode>, x: AstNode) -> (r: Vec<AstNode>)
    ensures
        nodes_view(r@) == insert_by_offset(nodes_view(sorted@), x@),
{
    let ghost v = nodes_view(sorted@);
    let mut sorted = sorted;
    let key = offset_of(&x);
    let mut j: usize = sorted.len();
    while j > 0 && offset_of(&sorted[j - 1]) > key
        invariant
            j <= sorted@.len(),
            v == nodes_view(sorted@),
            key == node_offset(x@),
            forall|t: int| j <= t < v.len() ==> node_offset(#[trigger] v[t]) > node_offset(x@),
        decreases j,
    {
        assert(v[j - 1] == node_view(sorted@[j - 1]));
        j -= 1;
    }
    proof {
        if j > 0 {
            assert(v[j - 1] == node_view(sorted@[j - 1]));
        }
        lemma_insert_by_offset_at(v, x@, j as int);
    }
    let ghost before = sorted@;
    sorted.insert(j, x);
    assert(nodes_view(sorted@) =~= v.insert(j as int, x@));
    sorted
}

/// Given a run of increments, sets and pointer increments, give the cell
/// changes offsets instead, so that a single `PointerIncrement` comes at
/// the end.
fn sort_sequence_by_offset(instrs: Vec<AstNode>) -> (r: Vec<AstNode>)
    ensures
        nodes_view(r@) == sort_sequence_spec(nodes_view(instrs@)),
{
    let ghost v = nodes_view(instrs@);
    let mut sorted: Vec<AstNode> = Vec::new();
    let mut current_offset: isize = 0;
    let mut last_ptr_inc_pos: Option<Option<Position>> = None;
    proof { lemma_nodes_view_empty(); }
    for instr in it: instrs.into_iter()
        invariant
            it.seq() == instrs@,
            v == nodes_view(instrs@),
            (nodes_view(sorted@), current_offset, last_ptr_inc_pos) == shift_prefix(v, it.index() as int),
    {
        let ghost k = it.index() as int;
        assert(v[k] == instr@);
        match instr {
            AstNode::Increment { amount, offset, position } => {
                let shifted = AstNode::Increment { amount, offset: offset.wrapping_add(current_offset), position };
                sorted = insert_sorted(sorted, shifted);
            },
            AstNode::SetCell { amount, offset, position } => {
                let shifted = AstNode::SetCell { amount, offset: offset.wrapping_add(current_offset), position };
                sorted = insert_sorted(sorted, shifted);
            },
            AstNode::PointerIncrement { amount, position } => {
                current_offset = current_offset.wrapping_add(amount);
                last_ptr_inc_pos = Some(position);
            },
            _ => {},
        }
    }
    // A single PointerIncrement at the end, for the net movement.
    if current_offset != 0 {
        let position = match last_ptr_inc_pos {
            Some(p) => p,
            None => None,
        };
        let ghost before = sorted@;
        let ptr_inc = AstNode::PointerIncrement { amount: current_offset, position };
        sorted.push(ptr_inc);
        proof { lemma_nodes_view_push(before, ptr_inc); }
    }
    sorted
}

fn sort_loop_node(instr: AstNode) -> (r: AstNode)
    ensures
        r@ == sort_node(instr@),
    decreases instr,
{
    match instr {
        AstNode::Loop { body, position } => {
            proof { lemma_node_view_loop(body, position); }
            let sorted = sort_by_offset(body);
            proof { lemma_node_view_loop(sorted, position); }
            AstNode::Loop { body: sorted, position }
        },
        other => other,
    }
}

/// Reorder flat sequences of instructions so we use offsets and only have
/// one pointer increment at the end. For example, `+>+>+<` becomes
/// increments of the cells at offsets 0, 1 and 2, then a pointer
/// increment of 1.
pub fn sort_by_offset(instrs: Vec<AstNode>) -> (r: Vec<AstNode>)
    ensures
        nodes_view(r@) == sort_by_offset_spec(nodes_view(instrs@)),
    decreases instrs,
{
    let ghost v = nodes_view(instrs@);
    let ghost orig = instrs;
    let mut sequence: Vec<AstNode> = Vec::new();
    let mut result: Vec<AstNode> = Vec::new();
    proof { lemma_nodes_view_empty(); }
    for instr in it: instrs.into_iter()
        invariant
            it.seq() == orig@,
            v == nodes_view(orig@),
            (nodes_view(result@), nodes_view(sequence@)) == sort_prefix(v, it.index() as int),
    {
        let ghost k = it.index() as int;
        assert(orig@[k] == instr);
        assert(v[k] == instr@);
        if is_offset_instr(&instr) {
            let ghost before = sequence@;
            sequence.push(instr);
            proof { lemma_nodes_view_push(before, instr); }
        } else {
            let run = sequence;
            sequence = Vec::new();
            let mut sorted_run = sort_sequence_by_offset(run);
            let ghost before = result@;
            let ghost run_view = sorted_run@;
            result.append(&mut sorted_run);
            assert(nodes_view(result@) =~= nodes_view(before) + nodes_view(run_view));
            assert(decreases_to!(orig => instr));
            let node = sort_loop_node(instr);
            let ghost before_node = result@;
            result.push(node);
            proof {
                lemma_nodes_view_push(before_node, node);
                lemma_nodes_view_empty();
            }
        }
    }
    let mut sorted_run = sort_sequence_by_offset(sequence);
    let ghost before = result@;
    let ghost run_view = sorted_run@;
    result.append(&mut sorted_run);
    assert(nodes_view(result@) =~= nodes_view(before) + nodes_view(run_view));
    result
}

/// Which passes to run. Each is named in a pass specification, a list of
/// names separated by commas.
#[derive(Clone, Copy, PartialEq, Eq, Debug, Structural)]
pub struct PassSet {
    pub combine_inc: bool,
    pub combine_ptr: bool,
    pub known_zero: bool,
    pub multiply: bool,
    pub zeroing_loop: bool,
    pub combine_set: bool,
    pub dead_loop: bool,
    pub redundant_set: bool,
    pub read_clobber: bool,
    pub pure_removal: bool,
    pub offset_sort: bool,
}

/// The pieces of `s` between commas, as `str::split(',')` gives them.
pub open spec fn split_commas(s: Seq<char>) -> Seq<Seq<char>>
    decreases s.len(),
{
    if s.len() == 0 {
        seq![Seq::empty()]
    } else {
        let rest = split_commas(s.drop_last());
        if s.last() == ',' {
            rest.push(Seq::empty())
        } else {
            rest.update(rest.len() - 1, rest.last().push(s.last()))
        }
    }
}

pub proof fn lemma_split_commas_nonempty(s: Seq<char>)
    ensures
        split_commas(s).len() > 0,
    decreases s.len(),
{
    if s.len() > 0 {
        lemma_split_commas_nonempty(s.drop_last());
    }
}

/// Is the pass called `name` one of those that `spec` names?
pub open spec fn names_pass(spec: Seq<char>, name: Seq<char>) -> bool {
    split_commas(spec).contains(name)
}

/// The passes that a pass specification names.
pub open spec fn pass_set_of(spec: Seq<char>) -> PassSet {
    PassSet {
        combine_inc: names_pass(spec, "combine_inc"@),
        combine_ptr: names_pass(spec, "combine_ptr"@),
        known_zero: names_pass(spec, "known_zero"@),
        multiply: names_pass(spec, "multiply"@),
        zeroing_loop: names_pass(spec, "zeroing_loop"@),
        combine_set: names_pass(spec, "combine_set"@),
        dead_loop: names_pass(spec, "dead_loop"@),
        redundant_set: names_pass(spec, "redundant_set"@),
        read_clobber: names_pass(spec, "read_clobber"@),
        pure_removal: names_pass(spec, "pure_removal"@),
        offset_sort: names_pass(spec, "offset_sort"@),
    }
}

/// Every pass: what runs when no specification is given.
pub open spec fn all_passes() -> PassSet {
    PassSet {
        combine_inc: true,
        combine_ptr: true,
        known_zero: true,
        multiply: true,
        zeroing_loop: true,
        combine_set: true,
        dead_loop: true,
        redundant_set: true,
        read_clobber: true,
        pure_removal: true,
        offset_sort: true,
    }
}

/// The passes that an optional pass specification selects.
pub open spec fn chosen_passes(spec: Option<String>) -> PassSet {
    match spec {
        None => all_passes(),
        Some(s) => pass_set_of(s@),
    }
}

pub open spec fn segment_views(segments: Seq<Vec<char>>) -> Seq<Seq<char>> {
    Seq::new(segments.len(), |i: int| segments[i]@)
}

/// Split at commas.
fn split_at_commas(chars: &Vec<char>) -> (r: Vec<Vec<char>>)
    ensures
        segment_views(r@) == split_commas(chars@),
{
    let mut segments: Vec<Vec<char>> = Vec::new();
    let mut current: Vec<char> = Vec::new();
    let mut i: usize = 0;
    assert(chars@.take(0) =~= Seq::<char>::empty());
    assert(segment_views(segments@).push(current@) =~= seq![Seq::<char>::empty()]);
    while i < chars.len()
        invariant
            i <= chars@.len(),
            segment_views(segments@).push(current@) == split_commas(chars@.take(i as int)),
        decreases chars@.len() - i,
    {
        let c = chars[i];
        let ghost before = segment_views(segments@).push(current@);
        assert(chars@.take(i + 1).drop_last() =~= chars@.take(i as int));
        if c == ',' {
            let finished = current;
            segments.push(finished);
            current = Vec::new();
            assert(segment_views(segments@).push(current@) =~= before.push(Seq::empty()));
        } else {
            current.push(c);
            assert(segment_views(segments@).push(current@) =~= before.update(before.len() - 1, before.last().push(c)));
        }
        i += 1;
    }
    assert(chars@.take(chars@.len() as int) =~= chars@);
    let ghost before = segments@;
    segments.push(current);
    assert(segment_views(segments@) =~= segment_views(before).push(current@));
    segments
}

fn chars_equal(a: &Vec<char>, b: &Vec<char>) -> (r: bool)
    ensures
        r == (a@ == b@),
{
    if a.len() != b.len() {
        return false;
    }
    let mut i: usize = 0;
    while i < a.len()
        invariant
            i <= a@.len() == b@.len(),
            forall|j: int| 0 <= j < i ==> a@[j] == b@[j],
        decreases a@.len() - i,
    {
        if a[i] != b[i] {
            return false;
        }
        i += 1;
    }
    assert(a@ =~= b@);
    true
}

/// Is `name` one of the segments?
fn has_segment(segments: &Vec<Vec<char>>, name: &str) -> (r: bool)
    ensures
        r == segment_views(segments@).contains(name@),
{
    let wanted = collect_chars(name);
    let mut i: usize = 0;
    while i < segments.len()
        invariant
            i <= segments@.len(),
            wanted@ == name@,
            forall|j: int| 0 <= j < i ==> segments@[j]@ != name@,
        decreases segments@.len() - i,
    {
        if chars_equal(&segments[i], &wanted) {
            assert(segment_views(segments@)[i as int] == name@);
            return true;
        }
        i += 1;
    }
    assert forall|j: int| 0 <= j < segment_views(segments@).len() implies segment_views(segments@)[j] != name@ by {
        assert(segments@[j]@ != name@);
    }
    false
}

impl PassSet {
    /// Read a pass specification: the passes named between its commas.
    pub fn from_specification(spec: &str) -> (r: PassSet)
        ensures
            r == pass_set_of(spec@),
            r.combine_inc == is_piece(spec@, "combine_inc"@),
            r.combine_ptr == is_piece(spec@, "combine_ptr"@),
            r.known_zero == is_piece(spec@, "known_zero"@),
            r.multiply == is_piece(spec@, "multiply"@),
            r.zeroing_loop == is_piece(spec@, "zeroing_loop"@),
            r.combine_set == is_piece(spec@, "combine_set"@),
            r.dead_loop == is_piece(spec@, "dead_loop"@),
            r.redundant_set == is_piece(spec@, "redundant_set"@),
            r.read_clobber == is_piece(spec@, "read_clobber"@),
            r.pure_removal == is_piece(spec@, "pure_removal"@),
            r.offset_sort == is_piece(spec@, "offset_sort"@),
    {
        proof { law_pass_names(spec@); }
        let chars = collect_chars(spec);
        let segments = split_at_commas(&chars);
        PassSet {
            combine_inc: has_segment(&segments, "combine_inc"),
            combine_ptr: has_segment(&segments, "combine_ptr"),
            known_zero: has_segment(&segments, "known_zero"),
            multiply: has_segment(&segments, "multiply"),
            zeroing_loop: has_segment(&segments, "zeroing_loop"),
            combine_set: has_segment(&segments, "combine_set"),
            dead_loop: has_segment(&segments, "dead_loop"),
            redundant_set: has_segment(&segments, "redundant_set"),
            read_clobber: has_segment(&segments, "read_clobber"),
            pure_removal: has_segment(&segments, "pure_removal"),
            offset_sort: has_segment(&segments, "offset_sort"),
        }
    }

    /// Every pass.
    pub fn all() -> (r: PassSet)
        ensures
            r == all_passes(),
    {
        PassSet {
            combine_inc: true,
            combine_ptr: true,
            known_zero: true,
            multiply: true,
            zeroing_loop: true,
            combine_set: true,
            dead_loop: true,
            redundant_set: true,
            read_clobber: true,
            pure_removal: true,
            offset_sort: true,
        }
    }

    /// The passes that an optional pass specification selects: all of them
    /// where there is none.
    pub fn selected(pass_specification: &Option<String>) -> (r: PassSet)
        ensures
            r == chosen_passes(*pass_specification),
            pass_specification is None ==> r.combine_inc && r.combine_ptr && r.known_zero && r.multiply && r.zeroing_loop && r.combine_set && r.dead_loop && r.redundant_set && r.read_clobber && r.pure_removal && r.offset_sort,
            pass_specification matches Some(s) ==> {
                r.combine_inc == is_piece(s@, "combine_inc"@) &&
                r.combine_ptr == is_piece(s@, "combine_ptr"@) &&
                r.known_zero == is_piece(s@, "known_zero"@) &&
                r.multiply == is_piece(s@, "multiply"@) &&
                r.zeroing_loop == is_piece(s@, "zeroing_loop"@) &&
                r.combine_set == is_piece(s@, "combine_set"@) &&
                r.dead_loop == is_piece(s@, "dead_loop"@) &&
                r.redundant_set == is_piece(s@, "redundant_set"@) &&
                r.read_clobber == is_piece(s@, "read_clobber"@) &&
                r.pure_removal == is_piece(s@, "pure_removal"@) &&
                r.offset_sort == is_piece(s@, "offset_sort"@)
            },
    {
        match pass_specification {
            None => PassSet::all(),
            Some(spec) => PassSet::from_specification(spec.as_str()),
        }
    }
}

/// One round of the chosen passes, in their fixed order; and, where pure
/// code was removed, the position of what went.
pub open spec fn optimize_once_spec(s: Seq<Node>, passes: PassSet) -> (Seq<Node>, Option<Option<Position>>) {
    let s1 = if passes.combine_inc { pass_seq(Pass::CombineIncrements, s) } else { s };
    let s2 = if passes.combine_ptr { pass_seq(Pass::CombinePtrIncrements, s1) } else { s1 };
    let s3 = if passes.known_zero { annotate_known_zero_spec(s2) } else { s2 };
    let s4 = if passes.multiply { pass_seq(Pass::ExtractMultiply, s3) } else { s3 };
    let s5 = if passes.zeroing_loop { pass_seq(Pass::ZeroingLoops, s4) } else { s4 };
    let s6 = if passes.combine_set { pass_seq(Pass::CombineSets, s5) } else { s5 };
    let s7 = if passes.dead_loop { pass_seq(Pass::DeadLoops, s6) } else { s6 };
    let s8 = if passes.redundant_set { remove_redundant_sets_spec(s7) } else { s7 };
    let s9 = if passes.read_clobber { pass_seq(Pass::ReadClobber, s8) } else { s8 };
    let (s10, warning) = if passes.pure_removal { remove_pure_code_spec(s9) } else { (s9, None) };
    let s11 = if passes.offset_sort { sort_by_offset_spec(s10) } else { s10 };
    (s11, warning)
}

pub open spec fn is_pure_code_warning(w: Warning, position: Option<Position>) -> bool {
    w.position == position && w.message@ == "These instructions have no effect."@
}

/// Apply the chosen peephole optimisations once.
pub fn optimize_once(instrs: Vec<AstNode>, passes: PassSet) -> (r: (Vec<AstNode>, Option<Warning>))
    ensures
        nodes_view(r.0@) == optimize_once_spec(nodes_view(instrs@), passes).0,
        match r.1 {
            None => optimize_once_spec(nodes_view(instrs@), passes).1 is None,
            Some(w) => optimize_once_spec(nodes_view(instrs@), passes).1 == Some(w.position)
                && is_pure_code_warning(w, w.position),
        },
{
    let mut instrs = instrs;
    if passes.combine_inc {
        instrs = combine_increments(instrs);
    }
    if passes.combine_ptr {
        instrs = combine_ptr_increments(instrs);
    }
    if passes.known_zero {
        instrs = annotate_known_zero(instrs);
    }
    if passes.multiply {
        instrs = extract_multiply(instrs);
    }
    if passes.zeroing_loop {
        instrs = zeroing_loops(instrs);
    }
    if passes.combine_set {
        instrs = combine_set_and_increments(instrs);
    }
    if passes.dead_loop {
        instrs = remove_dead_loops(instrs);
    }
    if passes.redundant_set {
        instrs = remove_redundant_sets(instrs);
    }
    if passes.read_clobber {
        instrs = remove_read_clobber(instrs);
    }
    let warning = if passes.pure_removal {
        let (removed, pure_warning) = remove_pure_code(instrs);
        instrs = removed;
        pure_warning
    } else {
        None
    };
    if passes.offset_sort {
        instrs = sort_by_offset(instrs);
    }
    (instrs, warning)
}

/// How many more rounds the optimiser runs at most, once it has run one,
/// looking for a fixed point.
pub const MAX_OPT_ITERATIONS: u64 = 40;

/// Rounds of optimisation from `result`, the round after `prev`, until a
/// round changes nothing or `fuel` further rounds have run.
pub open spec fn settle(prev: Seq<Node>, result: Seq<Node>, passes: PassSet, fuel: nat) -> Seq<Node>
    decreases fuel,
{
    if fuel == 0 || prev == result {
        result
    } else {
        settle(result, optimize_once_spec(result, passes).0, passes, (fuel - 1) as nat)
    }
}

/// The positions of the pure code that the further rounds removed, in
/// the order of the rounds.
pub open spec fn settle_warnings(prev: Seq<Node>, result: Seq<Node>, passes: PassSet, fuel: nat) -> Seq<Option<Position>>
    decreases fuel,
{
    if fuel == 0 || prev == result {
        Seq::empty()
    } else {
        let (next, warning) = optimize_once_spec(result, passes);
        warning_seq(warning) + settle_warnings(result, next, passes, (fuel - 1) as nat)
    }
}

/// Does a round change nothing before the fuel runs out?
pub open spec fn settles(prev: Seq<Node>, result: Seq<Node>, passes: PassSet, fuel: nat) -> bool
    decreases fuel,
{
    if fuel == 0 {
        false
    } else if prev == result {
        true
    } else {
        settles(result, optimize_once_spec(result, passes).0, passes, (fuel - 1) as nat)
    }
}

/// The positions of a list of warnings.
pub open spec fn warning_positions(warnings: Seq<Warning>) -> Seq<Option<Position>> {
    Seq::new(warnings.len(), |i: int| warnings[i].position)
}

pub open spec fn warning_seq(warning: Option<Option<Position>>) -> Seq<Option<Position>> {
    match warning {
        Some(p) => seq![p],
        None => Seq::empty(),
    }
}

/// The optimised program: one round, then further rounds until one
/// changes nothing, for at most `MAX_OPT_ITERATIONS` further rounds.
pub open spec fn optimize_spec(s: Seq<Node>, passes: PassSet) -> Seq<Node> {
    settle(s, optimize_once_spec(s, passes).0, passes, MAX_OPT_ITERATIONS as nat)
}

/// The positions of the pure code that the rounds removed, in order.
pub open spec fn optimize_warnings(s: Seq<Node>, passes: PassSet) -> Seq<Option<Position>> {
    let (first, warning) = optimize_once_spec(s, passes);
    warning_seq(warning) + settle_warnings(s, first, passes, MAX_OPT_ITERATIONS as nat)
}

/// Did the optimiser reach a fixed point?
pub open spec fn optimize_settles(s: Seq<Node>, passes: PassSet) -> bool {
    settles(s, optimize_once_spec(s, passes).0, passes, MAX_OPT_ITERATIONS as nat)
}

/// Given a sequence of BF instructions, apply peephole optimisations
/// repeatedly, until a round changes nothing or the rounds run out; say
/// which of the two happened.
pub fn optimize_with_status(instrs: Vec<AstNode>, pass_specification: &Option<String>) -> (r: (Vec<AstNode>, Vec<Warning>, bool))
    ensures
        nodes_view(r.0@) == optimize_spec(nodes_view(instrs@), chosen_passes(*pass_specification)),
        warning_positions(r.1@) == optimize_warnings(nodes_view(instrs@), chosen_passes(*pass_specification)),
        forall|i: int| 0 <= i < r.1@.len() ==> (#[trigger] r.1@[i]).message@ == "These instructions have no effect."@,
        r.2 == optimize_settles(nodes_view(instrs@), chosen_passes(*pass_specification)),
{
    let passes = PassSet::selected(pass_specification);
    let ghost v = nodes_view(instrs@);
    let mut prev = clone_nodes(instrs.as_slice());
    let mut warnings: Vec<Warning> = Vec::new();
    let (first, warning) = optimize_once(instrs, passes);
    let mut result = first;
    if let Some(w) = warning {
        warnings.push(w);
    }
    assert(warning_positions(warnings@) =~= warning_seq(optimize_once_spec(v, passes).1));
    let mut rounds: u64 = 0;
    while rounds < MAX_OPT_ITERATIONS
        invariant
            rounds <= MAX_OPT_ITERATIONS,
            v == nodes_view(instrs@),
            passes == chosen_passes(*pass_specification),
            settle(nodes_view(prev@), nodes_view(result@), passes, (MAX_OPT_ITERATIONS - rounds) as nat)
                == optimize_spec(v, passes),
            settles(nodes_view(prev@), nodes_view(result@), passes, (MAX_OPT_ITERATIONS - rounds) as nat)
                == optimize_settles(v, passes),
            warning_positions(warnings@) + settle_warnings(nodes_view(prev@), nodes_view(result@), passes, (MAX_OPT_ITERATIONS - rounds) as nat)
                == optimize_warnings(v, passes),
            forall|i: int| 0 <= i < warnings@.len() ==> (#[trigger] warnings@[i]).message@ == "These instructions have no effect."@,
        decreases MAX_OPT_ITERATIONS - rounds,
    {
        if nodes_equal(prev.as_slice(), result.as_slice()) {
            let ghost fuel = (MAX_OPT_ITERATIONS - rounds) as nat;
            assert(settle(nodes_view(prev@), nodes_view(result@), passes, fuel) == nodes_view(result@));
            assert(settles(nodes_view(prev@), nodes_view(result@), passes, fuel));
            assert(settle_warnings(nodes_view(prev@), nodes_view(result@), passes, fuel) == Seq::<Option<Position>>::empty());
            assert(warning_positions(warnings@) + Seq::<Option<Position>>::empty() =~= warning_positions(warnings@));
            return (result, warnings, true);
        }
        prev = clone_nodes(result.as_slice());
        let ghost fuel = (MAX_OPT_ITERATIONS - rounds) as nat;
        let ghost old_warnings = warnings@;
        let (next, warning) = optimize_once(result, passes);
        if let Some(w) = warning {
            warnings.push(w);
        }
        assert(warning_positions(warnings@) =~= warning_positions(old_warnings) + warning_seq(optimize_once_spec(nodes_view(prev@), passes).1));
        result = next;
        rounds += 1;
    }
    (result, warnings, false)
}

/// Given a sequence of BF instructions, apply peephole optimisations
/// (repeatedly if necessary).
pub fn optimize(instrs: Vec<AstNode>, pass_specification: &Option<String>) -> (r: (Vec<AstNode>, Vec<Warning>))
    ensures
        nodes_view(r.0@) == optimize_spec(nodes_view(instrs@), chosen_passes(*pass_specification)),
        warning_positions(r.1@) == optimize_warnings(nodes_view(instrs@), chosen_passes(*pass_specification)),
        forall|i: int| 0 <= i < r.1@.len() ==> (#[trigger] r.1@[i]).message@ == "These instructions have no effect."@,
{
    let (result, warnings, _) = optimize_with_status(instrs, pass_specification);
    (result, warnings)
}

} // verus!
