//! Parsing keeps every command of the source and nothing else: writing the
//! parsed program back out gives the source's command characters.
use crate::bfir::{char_node, parse_prefix, parse_spec, Node};
use vstd::prelude::*;

verus! {

/// One of the eight BF commands.
pub open spec fn is_command(c: char) -> bool {
    c == '+' || c == '-' || c == '>' || c == '<' || c == ',' || c == '.' || c == '[' || c == ']'
}

/// The command characters of `s`, in order.
pub open spec fn commands(s: Seq<char>) -> Seq<char>
    decreases s.len(),
{
    if s.len() == 0 {
        s
    } else if is_command(s.last()) {
        commands(s.drop_last()).push(s.last())
    } else {
        commands(s.drop_last())
    }
}

/// The BF source that a node stands for; nodes that the parser never
/// makes stand for nothing.
pub open spec fn node_source(n: Node) -> Seq<char>
    decreases n, 0int,
{
    match n {
        Node::Increment { amount, offset, .. } => if offset == 0 && amount == 1 {
            seq!['+']
        } else if offset == 0 && amount == -1 {
            seq!['-']
        } else {
            Seq::empty()
        },
        Node::PointerIncrement { amount, .. } => if amount == 1 {
            seq!['>']
        } else if amount == -1 {
            seq!['<']
        } else {
            Seq::empty()
        },
        Node::Read { .. } => seq![','],
        Node::Write { .. } => seq!['.'],
        Node::Loop { body, .. } => seq!['['] + seq_source(body) + seq![']'],
        _ => Seq::empty(),
    }
}

/// The BF source that a sequence of nodes stands for.
pub open spec fn seq_source(s: Seq<Node>) -> Seq<char>
    decreases s, 1int,
{
    if s.len() == 0 {
        Seq::empty()
    } else {
        seq_source(s.subrange(0, s.len() - 1)) + node_source(s[s.len() - 1])
    }
}

/// The source of the loops still open: each one's nodes before it, and
/// its `[`.
pub open spec fn stack_source(stack: Seq<(Seq<Node>, usize)>) -> Seq<char>
    decreases stack.len(),
{
    if stack.len() == 0 {
        Seq::empty()
    } else {
        stack_source(stack.drop_last()) + seq_source(stack.last().0) + seq!['[']
    }
}

proof fn lemma_seq_source_push(s: Seq<Node>, n: Node)
    ensures
        seq_source(s.push(n)) == seq_source(s) + node_source(n),
{
    assert(s.push(n).subrange(0, s.len() as int) =~= s);
    assert(s.push(n)[s.len() as int] == n);
}

proof fn lemma_parse_prefix_source(s: Seq<char>, n: nat)
    requires
        n <= s.len(),
    ensures
        parse_prefix(s, n) matches Ok((instrs, stack)) ==> commands(s.take(n as int)) == stack_source(stack) + seq_source(instrs),
    decreases n,
{
    if n == 0 {
        assert(s.take(0) =~= Seq::<char>::empty());
        assert(stack_source(Seq::empty()) + seq_source(Seq::empty()) =~= Seq::<char>::empty());
    } else {
        let i = n - 1;
        lemma_parse_prefix_source(s, (n - 1) as nat);
        assert(s.take(n as int).drop_last() =~= s.take(i));
        assert(s.take(n as int).last() == s[i]);
        if let Ok((instrs, stack)) = parse_prefix(s, (n - 1) as nat) {
            let before = commands(s.take(i));
            let c = s[i];
            if c == '[' {
                let st2 = stack.push((instrs, i as usize));
                assert(st2.drop_last() =~= stack);
                assert(stack_source(st2) == stack_source(stack) + seq_source(instrs) + seq!['[']);
                assert(seq_source(Seq::<Node>::empty()) == Seq::<char>::empty());
                assert(commands(s.take(n as int)) == before.push(c));
                assert(stack_source(st2) + seq_source(Seq::<Node>::empty()) =~= before.push(c));
            } else if c == ']' {
                if stack.len() > 0 {
                    let parent = stack.last().0;
                    let open = stack.last().1;
                    let lp = Node::Loop { body: instrs, position: Some(crate::bfir::Position { start: open, end: i as usize }) };
                    lemma_seq_source_push(parent, lp);
                    assert(stack_source(stack) == stack_source(stack.drop_last()) + seq_source(parent) + seq!['[']);
                    assert(commands(s.take(n as int)) == before.push(c));
                    assert(stack_source(stack.drop_last()) + seq_source(parent.push(lp)) =~= before.push(c));
                }
            } else {
                match char_node(c, i) {
                    Some(node) => {
                        lemma_seq_source_push(instrs, node);
                        assert(is_command(c));
                        assert(node_source(node) == seq![c]);
                        assert(commands(s.take(n as int)) == before.push(c));
                        assert(stack_source(stack) + seq_source(instrs.push(node)) =~= before.push(c));
                    },
                    None => {
                        assert(!is_command(c));
                    },
                }
            }
        }
    }
}

/// A node that one command, or a pair of brackets, stands for.
pub open spec fn command_node(n: Node) -> bool
    decreases n, 0int,
{
    match n {
        Node::Increment { amount, offset, .. } => offset == 0 && (amount == 1 || amount == -1),
        Node::PointerIncrement { amount, .. } => amount == 1 || amount == -1,
        Node::Read { .. } => true,
        Node::Write { .. } => true,
        Node::Loop { body, .. } => command_nodes(body),
        _ => false,
    }
}

pub open spec fn command_nodes(s: Seq<Node>) -> bool
    decreases s, 1int,
{
    forall|i: int| 0 <= i < s.len() ==> command_node(#[trigger] s[i])
}

proof fn lemma_parse_prefix_commands(s: Seq<char>, n: nat)
    requires
        n <= s.len(),
    ensures
        parse_prefix(s, n) matches Ok((instrs, stack)) ==> command_nodes(instrs) && forall|k: int|
            0 <= k < stack.len() ==> command_nodes(#[trigger] stack[k].0),
    decreases n,
{
    if n > 0 {
        let i = n - 1;
        lemma_parse_prefix_commands(s, (n - 1) as nat);
        if let Ok((instrs, stack)) = parse_prefix(s, (n - 1) as nat) {
            let c = s[i];
            if c == '[' {
                let st2 = stack.push((instrs, i as usize));
                assert forall|k: int| 0 <= k < st2.len() implies command_nodes(#[trigger] st2[k].0) by {
                    if k < stack.len() {
                        assert(st2[k] == stack[k]);
                    }
                }
                assert(command_nodes(Seq::<Node>::empty()));
            } else if c == ']' {
                if stack.len() > 0 {
                    let parent = stack.last().0;
                    let lp = Node::Loop { body: instrs, position: Some(crate::bfir::Position { start: stack.last().1, end: i as usize }) };
                    assert(command_nodes(parent));
                    assert(command_node(lp));
                    assert forall|k: int| 0 <= k < parent.push(lp).len() implies command_node(#[trigger] parent.push(lp)[k]) by {
                        if k < parent.len() {
                            assert(parent.push(lp)[k] == parent[k]);
                        }
                    }
                    assert forall|k: int| 0 <= k < stack.drop_last().len() implies command_nodes(#[trigger] stack.drop_last()[k].0) by {
                        assert(stack.drop_last()[k] == stack[k]);
                    }
                }
            } else {
                if let Some(node) = char_node(c, i) {
                    assert(command_node(node));
                    assert forall|k: int| 0 <= k < instrs.push(node).len() implies command_node(#[trigger] instrs.push(node)[k]) by {
                        if k < instrs.len() {
                            assert(instrs.push(node)[k] == instrs[k]);
                        }
                    }
                }
            }
        }
    }
}

/// Every node that parsing makes, at every depth, is one that a command or
/// a pair of brackets stands for: increments and pointer increments of one,
/// reads, writes and loops.
pub proof fn law_parse_makes_command_nodes(s: Seq<char>)
    requires
        parse_spec(s) is Ok,
    ensures
        command_nodes(parse_spec(s)->Ok_0),
{
    lemma_parse_prefix_commands(s, s.len());
}

/// Parsing keeps every command and nothing else: where the brackets
/// balance, the parsed program written back out is the source's command
/// characters.
pub proof fn law_parse_keeps_commands(s: Seq<char>)
    requires
        parse_spec(s) is Ok,
    ensures
        seq_source(parse_spec(s)->Ok_0) == commands(s),
{
    lemma_parse_prefix_source(s, s.len());
    assert(s.take(s.len() as int) =~= s);
    let (instrs, stack) = parse_prefix(s, s.len())->Ok_0;
    assert(stack.len() == 0);
    assert(stack_source(stack) + seq_source(instrs) =~= seq_source(instrs));
}

} // verus!
