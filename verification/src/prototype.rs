//! The first parser and optimiser of the flat IR.
use crate::bfir::collect_chars;
use crate::ir::{char_ins, inss_view, ir_parse_spec, lemma_inss_view_empty, lemma_inss_view_push, Ins, Instruction};
use crate::optimize::{
    combine_increments, combine_ptr_increments, ir_coalesce, ir_coalesce_instrs, ir_pass_seq, simplify_loops, IrPass, IrRule,
};
use vstd::prelude::*;

verus! {

broadcast use vstd::std_specs::vec::group_vec_axioms;

/// The instructions of the first `n` characters, brackets ignored.
pub open spec fn flat_parse_prefix(s: Seq<char>, n: int) -> Seq<Ins>
    decreases n,
{
    if n <= 0 || n > s.len() {
        Seq::empty()
    } else {
        match char_ins(s[n - 1]) {
            Some(i) => flat_parse_prefix(s, n - 1).push(i),
            None => flat_parse_prefix(s, n - 1),
        }
    }
}

/// What `parse` gives: the program with its loops where the brackets
/// match; where they do not, the other instructions with every bracket
/// ignored.
pub open spec fn prototype_parse_spec(s: Seq<char>) -> Seq<Ins> {
    match ir_parse_spec(s) {
        Ok(parsed) => parsed,
        Err(_) => flat_parse_prefix(s, s.len() as int),
    }
}

fn parse_ignoring_brackets(source: &str) -> (r: Vec<Instruction>)
    ensures
        inss_view(r@) == flat_parse_prefix(source@, source@.len() as int),
{
    let chars = collect_chars(source);
    let mut instructions: Vec<Instruction> = Vec::new();
    let mut i: usize = 0;
    proof { lemma_inss_view_empty(); }
    while i < chars.len()
        invariant
            i <= chars@.len(),
            chars@ == source@,
            inss_view(instructions@) == flat_parse_prefix(source@, i as int),
        decreases chars@.len() - i,
    {
        let c = chars[i];
        let ghost before = instructions@;
        let instr = if c == '+' {
            Some(Instruction::Increment(1))
        } else if c == '-' {
            Some(Instruction::Increment(-1))
        } else if c == '>' {
            Some(Instruction::PointerIncrement(1))
        } else if c == '<' {
            Some(Instruction::PointerIncrement(-1))
        } else if c == ',' {
            Some(Instruction::Read)
        } else if c == '.' {
            Some(Instruction::Write)
        } else {
            None
        };
        if let Some(instr) = instr {
            instructions.push(instr);
            proof { lemma_inss_view_push(before, instr); }
        }
        i += 1;
    }
    instructions
}

/// Given a string of BF source code, parse and return the IR.
pub fn parse(source: &str) -> (r: Vec<Instruction>)
    ensures
        inss_view(r@) == prototype_parse_spec(source@),
{
    match crate::ir::parse(source) {
        Ok(instrs) => instrs,
        Err(_) => parse_ignoring_brackets(source),
    }
}

/// Remove the loops right after a set to zero, at the top level only.
pub fn remove_dead_loops(instrs: Vec<Instruction>) -> (r: Vec<Instruction>)
    ensures
        inss_view(r@) == ir_coalesce(inss_view(instrs@), IrRule::DeadLoop),
{
    ir_coalesce_instrs(instrs, IrRule::DeadLoop)
}

/// The first optimiser: combined increments and pointer increments,
/// zeroing loops as sets, and dead loops at the top level removed.
pub open spec fn prototype_optimize_spec(s: Seq<Ins>) -> Seq<Ins> {
    let combined = ir_pass_seq(IrPass::CombinePtrIncrements, ir_pass_seq(IrPass::CombineIncrements, s));
    ir_coalesce(ir_pass_seq(IrPass::SimplifyLoops, combined), IrRule::DeadLoop)
}

/// Apply the first optimiser.
pub fn optimize(instrs: Vec<Instruction>) -> (r: Vec<Instruction>)
    ensures
        inss_view(r@) == prototype_optimize_spec(inss_view(instrs@)),
{
    let combined = combine_ptr_increments(combine_increments(instrs));
    remove_dead_loops(simplify_loops(combined))
}

} // verus!
