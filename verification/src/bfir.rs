//! The BF abstract syntax tree, with source positions, and its parser.
use std::collections::HashMap;
use vstd::prelude::*;
use vstd::std_specs::iter::IteratorSpec;

verus! {

/// A cell is the fundamental BF datatype: exactly one byte, whose arithmetic
/// wraps around.
pub type Cell = i8;

/// An inclusive range of character indices in the source code.
#[derive(PartialEq, Eq, Clone, Copy, Debug, Structural)]
pub struct Position {
    pub start: usize,
    pub end: usize,
}

/// Merging of two optional source ranges.
pub trait Combine<T> {
    fn combine(&self, other: T) -> T;
}

/// The position that `combine` gives: two ranges that overlap or touch merge
/// into one; otherwise the second range wins; a missing range gives `None`.
pub open spec fn combine_spec(a: Option<Position>, b: Option<Position>) -> Option<Position> {
    match (a, b) {
        (Some(p1), Some(p2)) => {
            let first = if p1.start <= p2.start { p1 } else { p2 };
            let second = if p1.start <= p2.start { p2 } else { p1 };
            if first.end + 1 >= second.start {
                Some(Position { start: first.start, end: second.end })
            } else {
                Some(p2)
            }
        },
        _ => None,
    }
}

impl Combine<Option<Position>> for Option<Position> {
    fn combine(&self, other: Option<Position>) -> (r: Option<Position>)
        ensures
            r == combine_spec(*self, other),
    {
        match (*self, other) {
            (Some(pos1), Some(pos2)) => {
                let (first_pos, second_pos) = if pos1.start <= pos2.start {
                    (pos1, pos2)
                } else {
                    (pos2, pos1)
                };
                if second_pos.start == 0 || first_pos.end >= second_pos.start - 1 {
                    Some(Position { start: first_pos.start, end: second_pos.end })
                } else {
                    Some(pos2)
                }
            },
            _ => None,
        }
    }
}

/// A node of the BF AST.
#[derive(PartialEq, Eq, Debug)]
pub enum AstNode {
    Increment { amount: Cell, offset: isize, position: Option<Position> },
    PointerIncrement { amount: isize, position: Option<Position> },
    Read { position: Option<Position> },
    Write { position: Option<Position> },
    Loop { body: Vec<AstNode>, position: Option<Position> },
    /// Set a cell to a value; generated during optimisation.
    SetCell { amount: Cell, offset: isize, position: Option<Position> },
    /// Add the current cell, times a factor, to the cells at the given
    /// offsets, then zero the current cell; generated during optimisation.
    MultiplyMove { changes: HashMap<isize, Cell>, position: Option<Position> },
}

/// The mathematical model of an `AstNode`: loop bodies are sequences and the
/// multiply table is a map.
pub enum Node {
    Increment { amount: Cell, offset: isize, position: Option<Position> },
    PointerIncrement { amount: isize, position: Option<Position> },
    Read { position: Option<Position> },
    Write { position: Option<Position> },
    Loop { body: Seq<Node>, position: Option<Position> },
    SetCell { amount: Cell, offset: isize, position: Option<Position> },
    MultiplyMove { changes: Map<isize, Cell>, position: Option<Position> },
}

pub open spec fn node_view(n: AstNode) -> Node
    decreases n,
{
    match n {
        AstNode::Increment { amount, offset, position } => Node::Increment { amount, offset, position },
        AstNode::PointerIncrement { amount, position } => Node::PointerIncrement { amount, position },
        AstNode::Read { position } => Node::Read { position },
        AstNode::Write { position } => Node::Write { position },
        AstNode::Loop { body, position } => Node::Loop { body: nodes_view(body@), position },
        AstNode::SetCell { amount, offset, position } => Node::SetCell { amount, offset, position },
        AstNode::MultiplyMove { changes, position } => Node::MultiplyMove { changes: changes@, position },
    }
}

pub open spec fn nodes_view(s: Seq<AstNode>) -> Seq<Node>
    decreases s,
{
    Seq::new(s.len(), |i: int| if 0 <= i < s.len() { node_view(s[i]) } else { Node::Read { position: None } })
}

impl View for AstNode {
    type V = Node;

    open spec fn view(&self) -> Node {
        node_view(*self)
    }
}

/// Where a node came from, if known.
pub fn get_position(instr: &AstNode) -> (r: Option<Position>)
    ensures
        r == node_position(instr@),
{
    match instr {
        AstNode::Increment { position, .. } => *position,
        AstNode::PointerIncrement { position, .. } => *position,
        AstNode::Read { position } => *position,
        AstNode::Write { position } => *position,
        AstNode::Loop { position, .. } => *position,
        AstNode::SetCell { position, .. } => *position,
        AstNode::MultiplyMove { position, .. } => *position,
    }
}

pub open spec fn node_position(n: Node) -> Option<Position> {
    match n {
        Node::Increment { position, .. } => position,
        Node::PointerIncrement { position, .. } => position,
        Node::Read { position } => position,
        Node::Write { position } => position,
        Node::Loop { position, .. } => position,
        Node::SetCell { position, .. } => position,
        Node::MultiplyMove { position, .. } => position,
    }
}

/// A syntax error: what went wrong, and where.
#[derive(Debug)]
pub struct ParseError {
    pub message: String,
    pub position: Position,
}

pub open spec fn single_position(i: int) -> Option<Position> {
    Some(Position { start: i as usize, end: i as usize })
}

/// The node that a character other than a bracket stands for, if any.
pub open spec fn char_node(c: char, i: int) -> Option<Node> {
    if c == '+' {
        Some(Node::Increment { amount: 1, offset: 0, position: single_position(i) })
    } else if c == '-' {
        Some(Node::Increment { amount: -1i8, offset: 0, position: single_position(i) })
    } else if c == '>' {
        Some(Node::PointerIncrement { amount: 1, position: single_position(i) })
    } else if c == '<' {
        Some(Node::PointerIncrement { amount: -1isize, position: single_position(i) })
    } else if c == ',' {
        Some(Node::Read { position: single_position(i) })
    } else if c == '.' {
        Some(Node::Write { position: single_position(i) })
    } else {
        None
    }
}

/// The parser's state after the first `n` characters: the nodes of the
/// innermost open loop (or the top level), and for each enclosing open loop
/// the nodes before it and the index of its `[`; or the index of a `]` that
/// closes nothing.
pub open spec fn parse_prefix(s: Seq<char>, n: nat) -> Result<(Seq<Node>, Seq<(Seq<Node>, usize)>), usize>
    decreases n,
{
    if n == 0 {
        Ok((Seq::empty(), Seq::empty()))
    } else {
        let i = n - 1;
        match parse_prefix(s, (n - 1) as nat) {
            Err(e) => Err(e),
            Ok((instrs, stack)) => {
                let c = s[i];
                if c == '[' {
                    Ok((Seq::empty(), stack.push((instrs, i as usize))))
                } else if c == ']' {
                    if stack.len() == 0 {
                        Err(i as usize)
                    } else {
                        let parent = stack.last().0;
                        let open = stack.last().1;
                        Ok((
                            parent.push(Node::Loop { body: instrs, position: Some(Position { start: open, end: i as usize }) }),
                            stack.drop_last(),
                        ))
                    }
                } else {
                    match char_node(c, i) {
                        Some(node) => Ok((instrs.push(node), stack)),
                        None => Ok((instrs, stack)),
                    }
                }
            },
        }
    }
}

/// What parsing the whole source gives: the program, or the position of the
/// offending bracket together with whether it is a `]` (else an unclosed `[`).
pub open spec fn parse_spec(s: Seq<char>) -> Result<Seq<Node>, (bool, usize)> {
    match parse_prefix(s, s.len()) {
        Err(i) => Err((true, i)),
        Ok((instrs, stack)) => if stack.len() == 0 {
            Ok(instrs)
        } else {
            Err((false, stack.last().1))
        },
    }
}

pub open spec fn stack_view(stack: Seq<(Vec<AstNode>, usize)>) -> Seq<(Seq<Node>, usize)> {
    Seq::new(stack.len(), |i: int| (nodes_view(stack[i].0@), stack[i].1))
}

pub proof fn lemma_nodes_view_push(s: Seq<AstNode>, n: AstNode)
    ensures
        nodes_view(s.push(n)) == nodes_view(s).push(node_view(n)),
{
    assert(nodes_view(s.push(n)) =~= nodes_view(s).push(node_view(n)));
}

pub proof fn lemma_nodes_view_empty()
    ensures
        nodes_view(Seq::<AstNode>::empty()) == Seq::<Node>::empty(),
{
    assert(nodes_view(Seq::<AstNode>::empty()) =~= Seq::<Node>::empty());
}

/// Once a `]` closes nothing, the parse stays failed at that bracket.
proof fn lemma_parse_error_persists(s: Seq<char>, k: nat, n: nat)
    requires
        k <= n,
        parse_prefix(s, k) is Err,
    ensures
        parse_prefix(s, n) == parse_prefix(s, k),
    decreases n - k,
{
    if k < n {
        lemma_parse_error_persists(s, k, (n - 1) as nat);
    }
}

/// The characters of a string, in order.
pub fn collect_chars(source: &str) -> (r: Vec<char>)
    ensures
        r@ == source@,
{
    let mut chars: Vec<char> = Vec::new();
    for c in it: source.chars()
        invariant
            chars@ == it.seq().take(it.index() as int),
            it.seq() == source@,
    {
        chars.push(c);
    }
    chars
}

/// Given BF source code, return the AST; or, where the brackets do not
/// match, the offending bracket.
pub fn parse(source: &str) -> (r: Result<Vec<AstNode>, ParseError>)
    ensures
        match (r, parse_spec(source@)) {
            (Ok(instrs), Ok(nodes)) => nodes_view(instrs@) == nodes,
            (Err(e), Err((closing, i))) => {
                &&& e.position == Position { start: i, end: i }
                &&& closing ==> e.message@ == "This ] has no matching ["@
                &&& !closing ==> e.message@ == "This [ has no matching ]"@
            },
            _ => false,
        },
{
    let chars = collect_chars(source);
    let mut instructions: Vec<AstNode> = Vec::new();
    let mut stack: Vec<(Vec<AstNode>, usize)> = Vec::new();
    let mut index: usize = 0;
    proof {
        lemma_nodes_view_empty();
        assert(stack_view(stack@) =~= Seq::<(Seq<Node>, usize)>::empty());
    }
    while index < chars.len()
        invariant
            index <= chars@.len(),
            chars@ == source@,
            parse_prefix(source@, index as nat) == Ok::<_, usize>((nodes_view(instructions@), stack_view(stack@))),
        decreases chars@.len() - index,
    {
        let c = chars[index];
        let pos = Some(Position { start: index, end: index });
        let ghost old_instrs = instructions@;
        let ghost old_stack = stack@;
        assert(source@[index as int] == c);
        if c == '+' {
            instructions.push(AstNode::Increment { amount: 1, offset: 0, position: pos });
            proof { lemma_nodes_view_push(old_instrs, instructions@.last()); }
        } else if c == '-' {
            instructions.push(AstNode::Increment { amount: -1, offset: 0, position: pos });
            proof { lemma_nodes_view_push(old_instrs, instructions@.last()); }
        } else if c == '>' {
            instructions.push(AstNode::PointerIncrement { amount: 1, position: pos });
            proof { lemma_nodes_view_push(old_instrs, instructions@.last()); }
        } else if c == '<' {
            instructions.push(AstNode::PointerIncrement { amount: -1, position: pos });
            proof { lemma_nodes_view_push(old_instrs, instructions@.last()); }
        } else if c == ',' {
            instructions.push(AstNode::Read { position: pos });
            proof { lemma_nodes_view_push(old_instrs, instructions@.last()); }
        } else if c == '.' {
            instructions.push(AstNode::Write { position: pos });
            proof { lemma_nodes_view_push(old_instrs, instructions@.last()); }
        } else if c == '[' {
            stack.push((instructions, index));
            instructions = Vec::new();
            proof {
                lemma_nodes_view_empty();
                assert(stack_view(stack@) =~= stack_view(old_stack).push((nodes_view(old_instrs), index)));
            }
        } else if c == ']' {
            match stack.pop() {
                Some((mut parent_instr, open_index)) => {
                    parent_instr.push(AstNode::Loop {
                        body: instructions,
                        position: Some(Position { start: open_index, end: index }),
                    });
                    instructions = parent_instr;
                    proof {
                        lemma_nodes_view_push(old_stack.last().0@, instructions@.last());
                        assert(stack_view(stack@) =~= stack_view(old_stack).drop_last());
                    }
                },
                None => {
                    proof { lemma_parse_error_persists(source@, (index + 1) as nat, source@.len()); }
                    return Err(ParseError {
                        message: "This ] has no matching [".to_string(),
                        position: Position { start: index, end: index },
                    });
                },
            }
        }
        index += 1;
    }
    if stack.len() > 0 {
        let pos = stack[stack.len() - 1].1;
        return Err(ParseError {
            message: "This [ has no matching ]".to_string(),
            position: Position { start: pos, end: pos },
        });
    }
    Ok(instructions)
}

/// The entries of a multiply table, each key once, in the order the table
/// hands them out.
pub fn change_entries(changes: &HashMap<isize, Cell>) -> (r: Vec<(isize, Cell)>)
    ensures
        forall|i: int| #![trigger r@[i]] 0 <= i < r@.len() ==> changes@.contains_key(r@[i].0) && changes@[r@[i].0] == r@[i].1,
        forall|k: isize| #[trigger] changes@.contains_key(k) ==> exists|i: int| 0 <= i < r@.len() && r@[i].0 == k,
        forall|i: int, j: int| 0 <= i < r@.len() && 0 <= j < r@.len() && i != j ==> r@[i].0 != r@[j].0,
{
    broadcast use vstd::std_specs::hash::group_hash_axioms;
    let mut result: Vec<(isize, Cell)> = Vec::new();
    let ghost entries = vstd::std_specs::hash::spec_hash_map_iter(changes).remaining();
    assert(vstd::std_specs::hash::obeys_key_model::<isize>());
    for (k, v) in it: changes.iter()
        invariant
            it.seq() == entries,
            entries.no_duplicates(),
            forall|i: int| 0 <= i < entries.len() ==> #[trigger] changes@.contains_key(*entries[i].0) && changes@[*entries[i].0] == *entries[i].1,
            result@.len() == it.index(),
            forall|i: int| 0 <= i < it.index() ==> #[trigger] result@[i] == (*entries[i].0, *entries[i].1),
    {
        result.push((*k, *v));
    }
    assert forall|k: isize| #[trigger] changes@.contains_key(k) implies exists|i: int| 0 <= i < result@.len() && result@[i].0 == k by {
        assert(entries.contains((&k, &changes@[k])));
        let i = choose|i: int| 0 <= i < entries.len() && entries[i] == (&k, &changes@[k]);
        assert(result@[i].0 == k);
    }
    assert forall|i: int, j: int| 0 <= i < result@.len() && 0 <= j < result@.len() && i != j implies result@[i].0 != result@[j].0 by {
        assert(result@[i] == (*entries[i].0, *entries[i].1));
        assert(result@[j] == (*entries[j].0, *entries[j].1));
        if result@[i].0 == result@[j].0 {
            assert(changes@.contains_key(*entries[i].0));
            assert(changes@.contains_key(*entries[j].0));
            assert(*entries[i].1 == *entries[j].1);
            assert(entries[i] == entries[j]);
        }
    }
    result
}

/// A deep copy of a sequence of nodes.
pub fn clone_nodes(instrs: &[AstNode]) -> (r: Vec<AstNode>)
    ensures
        nodes_view(r@) == nodes_view(instrs@),
    decreases instrs@,
{
    let mut result: Vec<AstNode> = Vec::with_capacity(instrs.len());
    let mut i: usize = 0;
    while i < instrs.len()
        invariant
            i <= instrs@.len(),
            result@.len() == i,
            forall|j: int| 0 <= j < i ==> node_view(#[trigger] result@[j]) == node_view(instrs@[j]),
        decreases instrs@.len() - i,
    {
        let copy = clone_node(&instrs[i]);
        result.push(copy);
        i += 1;
    }
    assert(nodes_view(result@) =~= nodes_view(instrs@));
    result
}

/// A deep copy of one node.
pub fn clone_node(instr: &AstNode) -> (r: AstNode)
    ensures
        r@ == instr@,
    decreases instr,
{
    match instr {
        AstNode::Increment { amount, offset, position } => AstNode::Increment { amount: *amount, offset: *offset, position: *position },
        AstNode::PointerIncrement { amount, position } => AstNode::PointerIncrement { amount: *amount, position: *position },
        AstNode::Read { position } => AstNode::Read { position: *position },
        AstNode::Write { position } => AstNode::Write { position: *position },
        AstNode::Loop { body, position } => {
            let b = clone_nodes(body.as_slice());
            AstNode::Loop { body: b, position: *position }
        },
        AstNode::SetCell { amount, offset, position } => AstNode::SetCell { amount: *amount, offset: *offset, position: *position },
        AstNode::MultiplyMove { changes, position } => AstNode::MultiplyMove { changes: changes.clone(), position: *position },
    }
}

/// Do two multiply tables hold the same entries?
pub fn changes_equal(a: &HashMap<isize, Cell>, b: &HashMap<isize, Cell>) -> (r: bool)
    ensures
        r == (a@ == b@),
{
    broadcast use vstd::std_specs::hash::group_hash_axioms;
    let entries_a = change_entries(a);
    let mut i: usize = 0;
    while i < entries_a.len()
        invariant
            i <= entries_a@.len(),
            forall|t: int| #![trigger entries_a@[t]] 0 <= t < entries_a@.len() ==> a@.contains_key(entries_a@[t].0) && a@[entries_a@[t].0] == entries_a@[t].1,
            forall|k: isize| #[trigger] a@.contains_key(k) ==> exists|t: int| 0 <= t < entries_a@.len() && entries_a@[t].0 == k,
            forall|t: int| 0 <= t < i ==> b@.contains_key(#[trigger] entries_a@[t].0) && b@[entries_a@[t].0] == entries_a@[t].1,
        decreases entries_a@.len() - i,
    {
        let (k, v) = entries_a[i];
        match b.get(&k) {
            Some(w) => {
                if *w != v {
                    return false;
                }
            },
            None => {
                return false;
            },
        }
        i += 1;
    }
    let entries_b = change_entries(b);
    let mut j: usize = 0;
    while j < entries_b.len()
        invariant
            j <= entries_b@.len(),
            forall|t: int| #![trigger entries_b@[t]] 0 <= t < entries_b@.len() ==> b@.contains_key(entries_b@[t].0) && b@[entries_b@[t].0] == entries_b@[t].1,
            forall|k: isize| #[trigger] b@.contains_key(k) ==> exists|t: int| 0 <= t < entries_b@.len() && entries_b@[t].0 == k,
            forall|t: int| 0 <= t < j ==> a@.contains_key(#[trigger] entries_b@[t].0),
        decreases entries_b@.len() - j,
    {
        let (k, _) = entries_b[j];
        if !a.contains_key(&k) {
            return false;
        }
        j += 1;
    }
    assert forall|k: isize| #[trigger] a@.contains_key(k) implies b@.contains_key(k) && b@[k] == a@[k] by {
        let t = choose|t: int| 0 <= t < entries_a@.len() && entries_a@[t].0 == k;
        assert(b@.contains_key(entries_a@[t].0));
    }
    assert forall|k: isize| #[trigger] b@.contains_key(k) implies a@.contains_key(k) by {
        let t = choose|t: int| 0 <= t < entries_b@.len() && entries_b@[t].0 == k;
        assert(a@.contains_key(entries_b@[t].0));
    }
    assert(a@ =~= b@);
    true
}

fn positions_equal(a: Option<Position>, b: Option<Position>) -> (r: bool)
    ensures
        r == (a == b),
{
    match (a, b) {
        (Some(x), Some(y)) => x.start == y.start && x.end == y.end,
        (None, None) => true,
        _ => false,
    }
}

/// Are two nodes the same, loop bodies and multiply tables included?
pub fn node_equal(a: &AstNode, b: &AstNode) -> (r: bool)
    ensures
        r == (a@ == b@),
    decreases a,
{
    match (a, b) {
        (AstNode::Increment { amount: a1, offset: o1, position: p1 }, AstNode::Increment { amount: a2, offset: o2, position: p2 }) =>
            *a1 == *a2 && *o1 == *o2 && positions_equal(*p1, *p2),
        (AstNode::PointerIncrement { amount: a1, position: p1 }, AstNode::PointerIncrement { amount: a2, position: p2 }) =>
            *a1 == *a2 && positions_equal(*p1, *p2),
        (AstNode::Read { position: p1 }, AstNode::Read { position: p2 }) => positions_equal(*p1, *p2),
        (AstNode::Write { position: p1 }, AstNode::Write { position: p2 }) => positions_equal(*p1, *p2),
        (AstNode::Loop { body: b1, position: p1 }, AstNode::Loop { body: b2, position: p2 }) =>
            positions_equal(*p1, *p2) && nodes_equal(b1.as_slice(), b2.as_slice()),
        (AstNode::SetCell { amount: a1, offset: o1, position: p1 }, AstNode::SetCell { amount: a2, offset: o2, position: p2 }) =>
            *a1 == *a2 && *o1 == *o2 && positions_equal(*p1, *p2),
        (AstNode::MultiplyMove { changes: c1, position: p1 }, AstNode::MultiplyMove { changes: c2, position: p2 }) =>
            positions_equal(*p1, *p2) && changes_equal(c1, c2),
        _ => false,
    }
}

/// Are two sequences of nodes the same, node by node?
pub fn nodes_equal(a: &[AstNode], b: &[AstNode]) -> (r: bool)
    ensures
        r == (nodes_view(a@) == nodes_view(b@)),
    decreases a@,
{
    if a.len() != b.len() {
        assert(nodes_view(a@).len() != nodes_view(b@).len());
        return false;
    }
    let mut i: usize = 0;
    while i < a.len()
        invariant
            i <= a@.len() == b@.len(),
            forall|j: int| 0 <= j < i ==> node_view(#[trigger] a@[j]) == node_view(b@[j]),
        decreases a@.len() - i,
    {
        if !node_equal(&a[i], &b[i]) {
            assert(nodes_view(a@)[i as int] != nodes_view(b@)[i as int]);
            return false;
        }
        i += 1;
    }
    assert(nodes_view(a@) =~= nodes_view(b@));
    true
}

impl Clone for AstNode {
    fn clone(&self) -> (r: AstNode)
        ensures
            r@ == self@,
    {
        clone_node(self)
    }
}

} // verus!
