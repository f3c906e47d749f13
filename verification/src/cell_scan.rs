//! Scans along one level of the AST for the instruction that last changed
//! (or next changes) a given cell.
use crate::bfir::{node_view, nodes_view, AstNode, Cell, Node};
use std::collections::HashMap;
use vstd::prelude::*;

verus! {

broadcast use vstd::std_specs::vec::group_vec_axioms;

/// Does a multiply-move write the cell at `offset` from the current one?
/// It zeroes the current cell and adds to each cell in its table.
pub open spec fn multiply_writes(changes: Map<isize, Cell>, offset: int) -> bool {
    offset == 0 || (isize::MIN <= offset <= isize::MAX && changes.contains_key(offset as isize))
}

/// Scanning backwards from just before index `i`, the index of the first
/// instruction that changes the cell at `offset` from the pointer at `i`;
/// `None` where there is none or a read or loop makes it unknown.
pub open spec fn prev_change_from(s: Seq<Node>, i: int, offset: int) -> Option<int>
    decreases i,
{
    if i <= 0 || i > s.len() {
        None
    } else {
        let k = i - 1;
        match s[k] {
            Node::Increment { offset: o, .. } => if o == offset { Some(k) } else { prev_change_from(s, k, offset) },
            Node::SetCell { offset: o, .. } => if o == offset { Some(k) } else { prev_change_from(s, k, offset) },
            Node::PointerIncrement { amount, .. } => prev_change_from(s, k, offset + amount),
            Node::MultiplyMove { changes, .. } => if multiply_writes(changes, offset) { Some(k) } else { prev_change_from(s, k, offset) },
            Node::Write { .. } => prev_change_from(s, k, offset),
            Node::Read { .. } => None,
            Node::Loop { .. } => None,
        }
    }
}

/// Scanning forwards from index `i`, the index of the first instruction
/// that changes the cell at `offset` from the pointer at `i`.
pub open spec fn next_change_from(s: Seq<Node>, i: int, offset: int) -> Option<int>
    decreases s.len() - i,
{
    if i < 0 || i >= s.len() {
        None
    } else {
        match s[i] {
            Node::Increment { offset: o, .. } => if o == offset { Some(i) } else { next_change_from(s, i + 1, offset) },
            Node::SetCell { offset: o, .. } => if o == offset { Some(i) } else { next_change_from(s, i + 1, offset) },
            Node::PointerIncrement { amount, .. } => next_change_from(s, i + 1, offset - amount),
            Node::MultiplyMove { changes, .. } => if multiply_writes(changes, offset) { Some(i) } else { next_change_from(s, i + 1, offset) },
            Node::Write { .. } => next_change_from(s, i + 1, offset),
            Node::Read { .. } => None,
            Node::Loop { .. } => None,
        }
    }
}

/// The index of the last instruction before `index` that changed the cell
/// that is current at `index`, if it is known.
pub open spec fn previous_change(s: Seq<Node>, index: int) -> Option<int> {
    prev_change_from(s, index, 0)
}

/// The index of the first instruction after `index` that changes the cell
/// that is current at `index`, if it is known.
pub open spec fn next_change(s: Seq<Node>, index: int) -> Option<int> {
    next_change_from(s, index + 1, 0)
}

pub proof fn lemma_prev_change_bounds(s: Seq<Node>, i: int, offset: int)
    ensures
        prev_change_from(s, i, offset) matches Some(p) ==> 0 <= p < i && p < s.len(),
    decreases i,
{
    if 0 < i <= s.len() {
        lemma_prev_change_bounds(s, i - 1, offset);
        lemma_prev_change_bounds(s, i - 1, offset + match s[i - 1] {
            Node::PointerIncrement { amount, .. } => amount as int,
            _ => 0,
        });
    }
}

pub proof fn lemma_next_change_bounds(s: Seq<Node>, i: int, offset: int)
    ensures
        next_change_from(s, i, offset) matches Some(p) ==> 0 <= i <= p < s.len(),
    decreases s.len() - i,
{
    if 0 <= i < s.len() {
        lemma_next_change_bounds(s, i + 1, offset);
        lemma_next_change_bounds(s, i + 1, offset - match s[i] {
            Node::PointerIncrement { amount, .. } => amount as int,
            _ => 0,
        });
    }
}

fn multiply_writes_cell(changes: &HashMap<isize, Cell>, offset: i128) -> (r: bool)
    ensures
        r == multiply_writes(changes@, offset as int),
{
    broadcast use vstd::std_specs::hash::group_hash_axioms;
    if offset == 0 {
        return true;
    }
    if offset < isize::MIN as i128 || offset > isize::MAX as i128 {
        return false;
    }
    changes.contains_key(&(offset as isize))
}

/// Given an index into a vector of instructions, find the index of the
/// previous instruction that modified the current cell. If we're unsure, or
/// there isn't one, return None.
///
/// This ignores the instruction at the index given, even if it has an
/// offset: it looks for changes of the cell that is current there.
pub fn previous_cell_change(instrs: &Vec<AstNode>, index: usize) -> (r: Option<usize>)
    requires
        index < instrs@.len(),
    ensures
        match r {
            Some(p) => previous_change(nodes_view(instrs@), index as int) == Some(p as int),
            None => previous_change(nodes_view(instrs@), index as int) is None,
        },
{
    let ghost v = nodes_view(instrs@);
    let mut needed: i128 = 0;
    let mut i: usize = index;
    while i > 0
        invariant
            i <= index < instrs@.len(),
            v == nodes_view(instrs@),
            prev_change_from(v, index as int, 0) == prev_change_from(v, i as int, needed as int),
            -((index - i) as int) * 0x8000_0000_0000_0000 <= needed <= ((index - i) as int) * 0x8000_0000_0000_0000,
        decreases i,
    {
        let k = i - 1;
        assert(v[k as int] == node_view(instrs@[k as int]));
        match &instrs[k] {
            AstNode::Increment { offset, .. } => {
                if *offset as i128 == needed {
                    return Some(k);
                }
            },
            AstNode::SetCell { offset, .. } => {
                if *offset as i128 == needed {
                    return Some(k);
                }
            },
            AstNode::PointerIncrement { amount, .. } => {
                needed = needed + *amount as i128;
            },
            AstNode::MultiplyMove { changes, .. } => {
                if multiply_writes_cell(changes, needed) {
                    return Some(k);
                }
            },
            AstNode::Write { .. } => {},
            AstNode::Read { .. } => {
                return None;
            },
            AstNode::Loop { .. } => {
                return None;
            },
        }
        i = k;
    }
    None
}

/// Inverse of `previous_cell_change`: the index of the next instruction
/// that modifies the current cell, if it is known.
pub fn next_cell_change(instrs: &Vec<AstNode>, index: usize) -> (r: Option<usize>)
    requires
        index < instrs@.len(),
    ensures
        match r {
            Some(p) => next_change(nodes_view(instrs@), index as int) == Some(p as int),
            None => next_change(nodes_view(instrs@), index as int) is None,
        },
{
    let ghost v = nodes_view(instrs@);
    let mut needed: i128 = 0;
    let n = instrs.len();
    let mut i: usize = index + 1;
    while i < n
        invariant
            index < i <= instrs@.len(),
            n == instrs@.len(),
            v == nodes_view(instrs@),
            next_change_from(v, index + 1, 0) == next_change_from(v, i as int, needed as int),
            -((i - index - 1) as int) * 0x8000_0000_0000_0000 <= needed <= ((i - index - 1) as int) * 0x8000_0000_0000_0000,
        decreases instrs@.len() - i,
    {
        assert(v[i as int] == node_view(instrs@[i as int]));
        match &instrs[i] {
            AstNode::Increment { offset, .. } => {
                if *offset as i128 == needed {
                    return Some(i);
                }
            },
            AstNode::SetCell { offset, .. } => {
                if *offset as i128 == needed {
                    return Some(i);
                }
            },
            AstNode::PointerIncrement { amount, .. } => {
                needed = needed - *amount as i128;
            },
            AstNode::MultiplyMove { changes, .. } => {
                if multiply_writes_cell(changes, needed) {
                    return Some(i);
                }
            },
            AstNode::Write { .. } => {},
            AstNode::Read { .. } => {
                return None;
            },
            AstNode::Loop { .. } => {
                return None;
            },
        }
        i = i + 1;
    }
    None
}

} // verus!
