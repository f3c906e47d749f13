//! The flat BF IR that the optimiser started from: no positions, no offsets.
use crate::bfir::{collect_chars, ParseError, Position};
use vstd::prelude::*;

verus! {

broadcast use vstd::std_specs::vec::group_vec_axioms;

/// An instruction of the flat IR.
#[derive(PartialEq, Eq, Debug)]
pub enum Instruction {
    Increment(i32),
    PointerIncrement(i32),
    /// Set the current cell to a value; generated during optimisation.
    SetCell(i32),
    Read,
    Write,
    Loop(Vec<Instruction>),
}

/// The mathematical model of an `Instruction`: loop bodies are sequences.
pub enum Ins {
    Increment(i32),
    PointerIncrement(i32),
    SetCell(i32),
    Read,
    Write,
    Loop(Seq<Ins>),
}

pub open spec fn ins_view(i: Instruction) -> Ins
    decreases i,
{
    match i {
        Instruction::Increment(a) => Ins::Increment(a),
        Instruction::PointerIncrement(a) => Ins::PointerIncrement(a),
        Instruction::SetCell(a) => Ins::SetCell(a),
        Instruction::Read => Ins::Read,
        Instruction::Write => Ins::Write,
        Instruction::Loop(body) => Ins::Loop(inss_view(body@)),
    }
}

pub open spec fn inss_view(s: Seq<Instruction>) -> Seq<Ins>
    decreases s,
{
    Seq::new(s.len(), |i: int| if 0 <= i < s.len() { ins_view(s[i]) } else { Ins::Read })
}

impl View for Instruction {
    type V = Ins;

    open spec fn view(&self) -> Ins {
        ins_view(*self)
    }
}

pub proof fn lemma_inss_view_push(s: Seq<Instruction>, n: Instruction)
    ensures
        inss_view(s.push(n)) == inss_view(s).push(ins_view(n)),
{
    assert(inss_view(s.push(n)) =~= inss_view(s).push(ins_view(n)));
}

pub proof fn lemma_inss_view_empty()
    ensures
        inss_view(Seq::<Instruction>::empty()) == Seq::<Ins>::empty(),
{
    assert(inss_view(Seq::<Instruction>::empty()) =~= Seq::<Ins>::empty());
}

pub proof fn lemma_ins_view_loop(body: Vec<Instruction>)
    ensures
        ins_view(Instruction::Loop(body)) == Ins::Loop(inss_view(body@)),
{
}

/// The instruction that a character other than a bracket stands for.
pub open spec fn char_ins(c: char) -> Option<Ins> {
    if c == '+' {
        Some(Ins::Increment(1))
    } else if c == '-' {
        Some(Ins::Increment(-1i32))
    } else if c == '>' {
        Some(Ins::PointerIncrement(1))
    } else if c == '<' {
        Some(Ins::PointerIncrement(-1i32))
    } else if c == ',' {
        Some(Ins::Read)
    } else if c == '.' {
        Some(Ins::Write)
    } else {
        None
    }
}

/// The parser's state after the first `n` characters: the instructions of
/// the innermost open loop (or the top level), and for each enclosing open
/// loop the instructions before it and the index of its `[`; or the index
/// of a `]` that closes nothing.
pub open spec fn ir_parse_prefix(s: Seq<char>, n: nat) -> Result<(Seq<Ins>, Seq<(Seq<Ins>, usize)>), usize>
    decreases n,
{
    if n == 0 {
        Ok((Seq::empty(), Seq::empty()))
    } else {
        let i = n - 1;
        match ir_parse_prefix(s, (n - 1) as nat) {
            Err(e) => Err(e),
            Ok((instrs, stack)) => {
                let c = s[i];
                if c == '[' {
                    Ok((Seq::empty(), stack.push((instrs, i as usize))))
                } else if c == ']' {
                    if stack.len() == 0 {
                        Err(i as usize)
                    } else {
                        Ok((stack.last().0.push(Ins::Loop(instrs)), stack.drop_last()))
                    }
                } else {
                    match char_ins(c) {
                        Some(ins) => Ok((instrs.push(ins), stack)),
                        None => Ok((instrs, stack)),
                    }
                }
            },
        }
    }
}

/// What parsing the whole source gives: the program, or the position of the
/// offending bracket together with whether it is a `]` (else an unclosed `[`).
pub open spec fn ir_parse_spec(s: Seq<char>) -> Result<Seq<Ins>, (bool, usize)> {
    match ir_parse_prefix(s, s.len()) {
        Err(i) => Err((true, i)),
        Ok((instrs, stack)) => if stack.len() == 0 {
            Ok(instrs)
        } else {
            Err((false, stack.last().1))
        },
    }
}

pub open spec fn ir_stack_view(stack: Seq<(Vec<Instruction>, usize)>) -> Seq<(Seq<Ins>, usize)> {
    Seq::new(stack.len(), |i: int| (inss_view(stack[i].0@), stack[i].1))
}

proof fn lemma_ir_parse_error_persists(s: Seq<char>, k: nat, n: nat)
    requires
        k <= n,
        ir_parse_prefix(s, k) is Err,
    ensures
        ir_parse_prefix(s, n) == ir_parse_prefix(s, k),
    decreases n - k,
{
    if k < n {
        lemma_ir_parse_error_persists(s, k, (n - 1) as nat);
    }
}

/// Given a string of BF source code, parse and return the IR; or, where
/// the brackets do not match, the offending bracket.
pub fn parse(source: &str) -> (r: Result<Vec<Instruction>, ParseError>)
    ensures
        match (r, ir_parse_spec(source@)) {
            (Ok(instrs), Ok(parsed)) => inss_view(instrs@) == parsed,
            (Err(e), Err((closing, i))) => {
                &&& e.position == Position { start: i, end: i }
                &&& closing ==> e.message@ == "This ] has no matching ["@
                &&& !closing ==> e.message@ == "This [ has no matching ]"@
            },
            _ => false,
        },
{
    let chars = collect_chars(source);
    let mut instructions: Vec<Instruction> = Vec::new();
    let mut stack: Vec<(Vec<Instruction>, usize)> = Vec::new();
    let mut index: usize = 0;
    proof {
        lemma_inss_view_empty();
        assert(ir_stack_view(stack@) =~= Seq::<(Seq<Ins>, usize)>::empty());
    }
    while index < chars.len()
        invariant
            index <= chars@.len(),
            chars@ == source@,
            ir_parse_prefix(source@, index as nat) == Ok::<_, usize>((inss_view(instructions@), ir_stack_view(stack@))),
        decreases chars@.len() - index,
    {
        let c = chars[index];
        let ghost old_instrs = instructions@;
        let ghost old_stack = stack@;
        assert(source@[index as int] == c);
        if c == '+' {
            instructions.push(Instruction::Increment(1));
            proof { lemma_inss_view_push(old_instrs, instructions@.last()); }
        } else if c == '-' {
            instructions.push(Instruction::Increment(-1));
            proof { lemma_inss_view_push(old_instrs, instructions@.last()); }
        } else if c == '>' {
            instructions.push(Instruction::PointerIncrement(1));
            proof { lemma_inss_view_push(old_instrs, instructions@.last()); }
        } else if c == '<' {
            instructions.push(Instruction::PointerIncrement(-1));
            proof { lemma_inss_view_push(old_instrs, instructions@.last()); }
        } else if c == ',' {
            instructions.push(Instruction::Read);
            proof { lemma_inss_view_push(old_instrs, instructions@.last()); }
        } else if c == '.' {
            instructions.push(Instruction::Write);
            proof { lemma_inss_view_push(old_instrs, instructions@.last()); }
        } else if c == '[' {
            stack.push((instructions, index));
            instructions = Vec::new();
            proof {
                lemma_inss_view_empty();
                assert(ir_stack_view(stack@) =~= ir_stack_view(old_stack).push((inss_view(old_instrs), index)));
            }
        } else if c == ']' {
            match stack.pop() {
                Some((mut parent_instr, _)) => {
                    parent_instr.push(Instruction::Loop(instructions));
                    instructions = parent_instr;
                    proof {
                        lemma_inss_view_push(old_stack.last().0@, instructions@.last());
                        assert(ir_stack_view(stack@) =~= ir_stack_view(old_stack).drop_last());
                    }
                },
                None => {
                    proof { lemma_ir_parse_error_persists(source@, (index + 1) as nat, source@.len()); }
                    return Err(ParseError {
                        message: "This ] has no matching [".to_string(),
                        position: Position { start: index, end: index },
                    });
                },
            }
        }
        index += 1;
    }
    if stack.len() > 0 {
        let pos = stack[stack.len() - 1].1;
        return Err(ParseError {
            message: "This [ has no matching ]".to_string(),
            position: Position { start: pos, end: pos },
        });
    }
    Ok(instructions)
}

/// A deep copy of a sequence of instructions.
pub fn clone_instructions(instrs: &[Instruction]) -> (r: Vec<Instruction>)
    ensures
        inss_view(r@) == inss_view(instrs@),
    decreases instrs@,
{
    let mut result: Vec<Instruction> = Vec::with_capacity(instrs.len());
    let mut i: usize = 0;
    while i < instrs.len()
        invariant
            i <= instrs@.len(),
            result@.len() == i,
            forall|j: int| 0 <= j < i ==> ins_view(#[trigger] result@[j]) == ins_view(instrs@[j]),
        decreases instrs@.len() - i,
    {
        let copy = clone_instruction(&instrs[i]);
        result.push(copy);
        i += 1;
    }
    assert(inss_view(result@) =~= inss_view(instrs@));
    result
}

/// A deep copy of one instruction.
pub fn clone_instruction(instr: &Instruction) -> (r: Instruction)
    ensures
        r@ == instr@,
    decreases instr,
{
    match instr {
        Instruction::Increment(a) => Instruction::Increment(*a),
        Instruction::PointerIncrement(a) => Instruction::PointerIncrement(*a),
        Instruction::SetCell(a) => Instruction::SetCell(*a),
        Instruction::Read => Instruction::Read,
        Instruction::Write => Instruction::Write,
        Instruction::Loop(body) => {
            let b = clone_instructions(body.as_slice());
            Instruction::Loop(b)
        },
    }
}

impl Clone for Instruction {
    fn clone(&self) -> (r: Instruction)
        ensures
            r@ == self@,
    {
        clone_instruction(self)
    }
}

} // verus!
