//! The highest cell index that a BF program can reach.
use crate::bfir::{change_entries, nodes_view, node_view, AstNode, Cell, Node};
use vstd::prelude::*;

verus! {

/// 100,000 cells, zero-indexed.
pub const MAX_CELL_INDEX: usize = 99999;

/// A cell index or distance that is either known or unbounded.
pub enum Extent {
    Number(int),
    Max,
}

/// The sum, counted as unbounded where it leaves the range of `i64`.
pub open spec fn extent_add(a: Extent, b: Extent) -> Extent {
    match (a, b) {
        (Extent::Number(x), Extent::Number(y)) => if i64::MIN <= x + y <= i64::MAX {
            Extent::Number(x + y)
        } else {
            Extent::Max
        },
        _ => Extent::Max,
    }
}

pub open spec fn extent_max(a: Extent, b: Extent) -> Extent {
    match (a, b) {
        (Extent::Number(x), Extent::Number(y)) => Extent::Number(if x >= y { x } else { y }),
        _ => Extent::Max,
    }
}

/// The largest offset in a multiply table, or zero if none is larger.
pub open spec fn highest_key(changes: Map<isize, Cell>) -> isize {
    if exists|k: isize| changes.contains_key(k) && k > 0 {
        choose|k: isize| changes.contains_key(k) && forall|j: isize| changes.contains_key(j) ==> j <= k
    } else {
        0
    }
}

/// The highest cell reached relative to the cell pointer before the node,
/// and where the cell pointer ends relative to where it started.
pub open spec fn movement(n: Node) -> (Extent, Extent)
    decreases n,
{
    match n {
        Node::PointerIncrement { amount, .. } => if amount < 0 {
            (Extent::Number(0), Extent::Number(amount as int))
        } else {
            (Extent::Number(amount as int), Extent::Number(amount as int))
        },
        Node::Increment { offset, .. } => (Extent::Number(offset as int), Extent::Number(0)),
        Node::SetCell { offset, .. } => (Extent::Number(offset as int), Extent::Number(0)),
        Node::MultiplyMove { changes, .. } => (Extent::Number(highest_key(changes) as int), Extent::Number(0)),
        Node::Loop { body, .. } => {
            let (max_in_body, net_in_body) = overall_movement(body);
            match net_in_body {
                // A loop without net movement, or with movement downwards
                // (it may run zero times), ends where it began.
                Extent::Number(net) => if net <= 0 {
                    (max_in_body, Extent::Number(0))
                } else {
                    (Extent::Max, Extent::Max)
                },
                Extent::Max => (Extent::Max, Extent::Max),
            }
        },
        Node::Read { .. } => (Extent::Number(0), Extent::Number(0)),
        Node::Write { .. } => (Extent::Number(0), Extent::Number(0)),
    }
}

/// `movement` of a sequence of nodes run one after the other.
pub open spec fn overall_movement(s: Seq<Node>) -> (Extent, Extent)
    decreases s,
{
    if s.len() == 0 {
        (Extent::Number(0), Extent::Number(0))
    } else {
        let (max_index, net) = overall_movement(s.drop_last());
        let (highest, moved) = movement(s.last());
        (extent_max(net, extent_max(extent_add(net, highest), max_index)), extent_add(net, moved))
    }
}

pub open spec fn in_i64(e: Extent) -> bool {
    e matches Extent::Number(x) ==> i64::MIN <= x <= i64::MAX
}

/// The highest cell index reachable, clamped to the tape.
pub open spec fn highest_cell_index_spec(s: Seq<Node>) -> usize {
    match overall_movement(s).0 {
        Extent::Number(x) => if x > MAX_CELL_INDEX { MAX_CELL_INDEX } else { x as usize },
        Extent::Max => MAX_CELL_INDEX,
    }
}

proof fn lemma_movement_in_range(n: Node)
    ensures
        in_i64(movement(n).0),
        in_i64(movement(n).1),
    decreases n,
{
    if let Node::Loop { body, .. } = n {
        lemma_overall_in_range(body);
    }
}

/// Every number the analysis forms fits in an `i64`, and the highest cell
/// reached is never below the start.
pub proof fn lemma_overall_in_range(s: Seq<Node>)
    ensures
        in_i64(overall_movement(s).0),
        in_i64(overall_movement(s).1),
        overall_movement(s).0 matches Extent::Number(x) ==> x >= 0,
    decreases s,
{
    if s.len() > 0 {
        lemma_overall_in_range(s.drop_last());
        lemma_movement_in_range(s.last());
    }
}

/// Exact integers, or unbounded.
#[derive(Clone, Copy)]
enum SaturatingInt {
    Number(i64),
    Max,
}

impl SaturatingInt {
    spec fn view(self) -> Extent {
        match self {
            SaturatingInt::Number(x) => Extent::Number(x as int),
            SaturatingInt::Max => Extent::Max,
        }
    }

    /// The sum, unbounded where it leaves the range of `i64`.
    fn saturating_add(self, rhs: SaturatingInt) -> (r: SaturatingInt)
        ensures
            r.view() == extent_add(self.view(), rhs.view()),
    {
        match (self, rhs) {
            (SaturatingInt::Number(x), SaturatingInt::Number(y)) => match x.checked_add(y) {
                Some(z) => SaturatingInt::Number(z),
                None => SaturatingInt::Max,
            },
            _ => SaturatingInt::Max,
        }
    }

    fn max_with(self, other: SaturatingInt) -> (r: SaturatingInt)
        ensures
            r.view() == extent_max(self.view(), other.view()),
    {
        match (self, other) {
            (SaturatingInt::Number(x), SaturatingInt::Number(y)) => SaturatingInt::Number(if x >= y { x } else { y }),
            _ => SaturatingInt::Max,
        }
    }
}

/// The largest key of a multiply table, or zero if none is larger.
fn highest_affected(changes: &std::collections::HashMap<isize, Cell>) -> (r: isize)
    ensures
        r == highest_key(changes@),
{
    let entries = change_entries(changes);
    let mut highest: isize = 0;
    let mut i: usize = 0;
    while i < entries.len()
        invariant
            i <= entries@.len(),
            highest >= 0,
            forall|j: int| 0 <= j < i ==> #[trigger] entries@[j].0 <= highest,
            highest == 0 || changes@.contains_key(highest),
            forall|j: int| #![trigger entries@[j]] 0 <= j < entries@.len() ==> changes@.contains_key(entries@[j].0) && changes@[entries@[j].0] == entries@[j].1,
            forall|k: isize| #[trigger] changes@.contains_key(k) ==> exists|j: int| 0 <= j < entries@.len() && entries@[j].0 == k,
        decreases entries@.len() - i,
    {
        if entries[i].0 > highest {
            highest = entries[i].0;
        }
        i += 1;
    }
    assert forall|k: isize| changes@.contains_key(k) implies k <= highest by {
        let j = choose|j: int| 0 <= j < entries@.len() && entries@[j].0 == k;
        assert(entries@[j].0 <= highest);
    }
    proof {
    if exists|k: isize| changes@.contains_key(k) && k > 0 {
        let m = choose|k: isize| changes@.contains_key(k) && forall|j: isize| changes@.contains_key(j) ==> j <= k;
        assert(changes@.contains_key(highest) && forall|j: isize| changes@.contains_key(j) ==> j <= highest) by {
            let k = choose|k: isize| changes@.contains_key(k) && k > 0;
            assert(k <= highest);
        }
        assert(m <= highest && highest <= m);
    }
    }
    highest
}

fn movement_of(instr: &AstNode) -> (r: (SaturatingInt, SaturatingInt))
    ensures
        (r.0.view(), r.1.view()) == movement(instr@),
    decreases instr,
{
    match instr {
        AstNode::PointerIncrement { amount, .. } => {
            if *amount < 0 {
                (SaturatingInt::Number(0), SaturatingInt::Number(*amount as i64))
            } else {
                (SaturatingInt::Number(*amount as i64), SaturatingInt::Number(*amount as i64))
            }
        },
        AstNode::Increment { offset, .. } => (SaturatingInt::Number(*offset as i64), SaturatingInt::Number(0)),
        AstNode::SetCell { offset, .. } => (SaturatingInt::Number(*offset as i64), SaturatingInt::Number(0)),
        AstNode::MultiplyMove { changes, .. } => {
            let highest = highest_affected(changes);
            (SaturatingInt::Number(highest as i64), SaturatingInt::Number(0))
        },
        AstNode::Loop { body, .. } => {
            let (max_in_body, net_in_body) = overall_movement_of(body.as_slice());
            match net_in_body {
                SaturatingInt::Number(net_loop_movement) => {
                    if net_loop_movement <= 0 {
                        // Net movement downwards: the loop may run zero
                        // times, so assume it ends where it began.
                        (max_in_body, SaturatingInt::Number(0))
                    } else {
                        // Net movement upwards: no bound.
                        (SaturatingInt::Max, SaturatingInt::Max)
                    }
                },
                SaturatingInt::Max => (SaturatingInt::Max, SaturatingInt::Max),
            }
        },
        AstNode::Read { .. } => (SaturatingInt::Number(0), SaturatingInt::Number(0)),
        AstNode::Write { .. } => (SaturatingInt::Number(0), SaturatingInt::Number(0)),
    }
}

/// The highest cell index reached and the cell index at the end, relative
/// to the start.
fn overall_movement_of(instrs: &[AstNode]) -> (r: (SaturatingInt, SaturatingInt))
    ensures
        (r.0.view(), r.1.view()) == overall_movement(nodes_view(instrs@)),
    decreases instrs@,
{
    let ghost s = nodes_view(instrs@);
    let mut net_movement = SaturatingInt::Number(0);
    let mut max_index = SaturatingInt::Number(0);
    let mut i: usize = 0;
    assert(s.take(0) =~= Seq::<Node>::empty());
    while i < instrs.len()
        invariant
            i <= instrs@.len(),
            s == nodes_view(instrs@),
            (max_index.view(), net_movement.view()) == overall_movement(s.take(i as int)),
        decreases instrs@.len() - i,
    {
        assert(s.take(i + 1).drop_last() =~= s.take(i as int));
        assert(s.take(i + 1).last() == node_view(instrs@[i as int]));
        let (instr_highest_offset, instr_net_movement) = movement_of(&instrs[i]);
        let reached = net_movement.saturating_add(instr_highest_offset);
        let moved = net_movement.saturating_add(instr_net_movement);
        max_index = net_movement.max_with(reached.max_with(max_index));
        net_movement = moved;
        i += 1;
    }
    assert(s.take(instrs@.len() as int) =~= s);
    (max_index, net_movement)
}

/// Return the highest cell index that can be reached during program
/// execution, zero-indexed and clamped to the tape.
pub fn highest_cell_index(instrs: &[AstNode]) -> (r: usize)
    ensures
        r == highest_cell_index_spec(nodes_view(instrs@)),
        r <= MAX_CELL_INDEX,
{
    proof { lemma_overall_in_range(nodes_view(instrs@)); }
    match overall_movement_of(instrs) {
        (SaturatingInt::Number(x), _) => {
            if x > MAX_CELL_INDEX as i64 {
                MAX_CELL_INDEX
            } else {
                x as usize
            }
        },
        _ => MAX_CELL_INDEX,
    }
}

} // verus!
