//! Optimisations of the flat IR.
use crate::ir::{
    clone_instruction, ins_view, inss_view, lemma_ins_view_loop, lemma_inss_view_empty, lemma_inss_view_push, Ins,
    Instruction,
};
use vstd::prelude::*;

verus! {

broadcast use vstd::std_specs::vec::group_vec_axioms;

/// The rules by which two adjacent instructions merge into one.
#[derive(Clone, Copy, PartialEq, Eq, Debug, Structural)]
pub enum IrRule {
    /// Two increments add up.
    Increments,
    /// Two pointer increments add up.
    PtrIncrements,
    /// A read overwrites an increment or a set just before it.
    BeforeRead,
    /// A loop after a set to zero is never entered.
    DeadLoop,
    /// An increment followed by a set is that set.
    IncrementThenSet,
    /// A set followed by an increment is one set.
    SetThenIncrement,
    /// Two sets are the second set.
    SetThenSet,
    /// A set to zero after a loop does nothing: the loop left the cell at zero.
    LoopThenSetZero,
}

/// The instruction that two adjacent instructions merge into under `rule`,
/// if they merge.
pub open spec fn ir_merge(rule: IrRule, prev: Ins, next: Ins) -> Option<Ins> {
    match rule {
        IrRule::Increments => match (prev, next) {
            (Ins::Increment(a), Ins::Increment(b)) => Some(Ins::Increment(vstd::wrapping::i32_specs::wrapping_add(b, a))),
            _ => None,
        },
        IrRule::PtrIncrements => match (prev, next) {
            (Ins::PointerIncrement(a), Ins::PointerIncrement(b)) =>
                Some(Ins::PointerIncrement(vstd::wrapping::i32_specs::wrapping_add(b, a))),
            _ => None,
        },
        IrRule::BeforeRead => match (prev, next) {
            (Ins::Increment(_), Ins::Read) => Some(Ins::Read),
            (Ins::SetCell(_), Ins::Read) => Some(Ins::Read),
            _ => None,
        },
        IrRule::DeadLoop => match (prev, next) {
            (Ins::SetCell(a), Ins::Loop(_)) => if a == 0 { Some(Ins::SetCell(0)) } else { None },
            _ => None,
        },
        IrRule::IncrementThenSet => match (prev, next) {
            (Ins::Increment(_), Ins::SetCell(a)) => Some(Ins::SetCell(a)),
            _ => None,
        },
        IrRule::SetThenIncrement => match (prev, next) {
            (Ins::SetCell(a), Ins::Increment(b)) => Some(Ins::SetCell(vstd::wrapping::i32_specs::wrapping_add(a, b))),
            _ => None,
        },
        IrRule::SetThenSet => match (prev, next) {
            (Ins::SetCell(_), Ins::SetCell(a)) => Some(Ins::SetCell(a)),
            _ => None,
        },
        IrRule::LoopThenSetZero => match (prev, next) {
            (Ins::Loop(body), Ins::SetCell(a)) => if a == 0 { Some(Ins::Loop(body)) } else { None },
            _ => None,
        },
    }
}

/// Merge `acc` with the instructions after it, left to right, as long as
/// they merge.
pub open spec fn ir_coalesce_from(acc: Ins, rest: Seq<Ins>, rule: IrRule) -> Seq<Ins>
    decreases rest.len(),
{
    if rest.len() == 0 {
        seq![acc]
    } else {
        match ir_merge(rule, acc, rest[0]) {
            Some(merged) => ir_coalesce_from(merged, rest.drop_first(), rule),
            None => seq![acc] + ir_coalesce_from(rest[0], rest.drop_first(), rule),
        }
    }
}

/// Replace each run of adjacent instructions that merge under `rule` by
/// what they merge into.
pub open spec fn ir_coalesce(s: Seq<Ins>, rule: IrRule) -> Seq<Ins> {
    if s.len() == 0 {
        Seq::empty()
    } else {
        ir_coalesce_from(s[0], s.drop_first(), rule)
    }
}

pub open spec fn is_zero_increment(i: Ins) -> bool {
    i matches Ins::Increment(a) && a == 0
}

pub open spec fn is_zero_ptr_increment(i: Ins) -> bool {
    i matches Ins::PointerIncrement(a) && a == 0
}

/// The instructions of `s` that are not increments of zero (of a cell if
/// `pointer` is false, of the pointer if it is true).
pub open spec fn drop_zero_increments(s: Seq<Ins>, pointer: bool) -> Seq<Ins>
    decreases s.len(),
{
    if s.len() == 0 {
        s
    } else if (if pointer { is_zero_ptr_increment(s.last()) } else { is_zero_increment(s.last()) }) {
        drop_zero_increments(s.drop_last(), pointer)
    } else {
        drop_zero_increments(s.drop_last(), pointer).push(s.last())
    }
}

/// The passes of the flat IR that work on every loop body as well as on
/// the top level.
#[derive(Clone, Copy, PartialEq, Eq, Debug, Structural)]
pub enum IrPass {
    CombineIncrements,
    CombinePtrIncrements,
    CombineBeforeRead,
    SimplifyLoops,
    DeadLoops,
    CombineSets,
    RedundantSets,
}

pub open spec fn is_set_zero_ins(i: Ins) -> bool {
    i matches Ins::SetCell(a) && a == 0
}

/// The loop body `[-]`.
pub open spec fn is_zeroing_body(body: Seq<Ins>) -> bool {
    body.len() == 1 && (body[0] matches Ins::Increment(a) && a == -1)
}

/// What a pass does to one instruction: loop bodies are transformed
/// recursively.
pub open spec fn ir_pass_node(p: IrPass, n: Ins) -> Ins
    decreases n, 2int,
{
    match n {
        Ins::Loop(body) => match p {
            IrPass::SimplifyLoops => if is_zeroing_body(body) {
                Ins::SetCell(0)
            } else {
                Ins::Loop(ir_pass_seq(p, body))
            },
            _ => Ins::Loop(ir_pass_seq(p, body)),
        },
        _ => n,
    }
}

/// What a pass does to a sequence of instructions: every instruction
/// first, then the sequence itself.
pub open spec fn ir_pass_seq(p: IrPass, s: Seq<Ins>) -> Seq<Ins>
    decreases s, 1int,
{
    ir_pass_top(p, ir_pass_each(p, s))
}

/// A pass applied to each instruction of a sequence on its own.
pub open spec fn ir_pass_each(p: IrPass, s: Seq<Ins>) -> Seq<Ins>
    decreases s, 0int,
{
    Seq::new(s.len(), |i: int| if 0 <= i < s.len() { ir_pass_node(p, s[i]) } else { Ins::Read })
}

/// What a pass does to one level of the program, once the loop bodies in
/// it have been transformed.
pub open spec fn ir_pass_top(p: IrPass, t: Seq<Ins>) -> Seq<Ins> {
    match p {
        IrPass::CombineIncrements => drop_zero_increments(ir_coalesce(t, IrRule::Increments), false),
        IrPass::CombinePtrIncrements => drop_zero_increments(ir_coalesce(t, IrRule::PtrIncrements), true),
        IrPass::CombineBeforeRead => ir_coalesce(t, IrRule::BeforeRead),
        IrPass::SimplifyLoops => t,
        IrPass::DeadLoops => ir_coalesce(t, IrRule::DeadLoop),
        IrPass::CombineSets => ir_coalesce(
            ir_coalesce(ir_coalesce(t, IrRule::IncrementThenSet), IrRule::SetThenIncrement),
            IrRule::SetThenSet,
        ),
        IrPass::RedundantSets => ir_coalesce(t, IrRule::LoopThenSetZero),
    }
}

/// The program without the sets to zero right after a loop, and without a
/// set to zero at its very start, where cells are zero already.
pub open spec fn ir_remove_redundant_sets_spec(s: Seq<Ins>) -> Seq<Ins> {
    let reduced = ir_pass_seq(IrPass::RedundantSets, s);
    if reduced.len() > 0 && is_set_zero_ins(reduced[0]) {
        reduced.drop_first()
    } else {
        reduced
    }
}

/// Merge two adjacent instructions under `rule`, or hand both back.
fn ir_try_merge(rule: IrRule, prev: Instruction, next: Instruction) -> (r: Result<Instruction, (Instruction, Instruction)>)
    ensures
        match r {
            Ok(merged) => ir_merge(rule, prev@, next@) == Some(merged@),
            Err((p, n)) => ir_merge(rule, prev@, next@) is None && p@ == prev@ && n@ == next@,
        },
{
    match rule {
        IrRule::Increments => {
            if let (Instruction::Increment(prev_amount), Instruction::Increment(amount)) = (&prev, &next) {
                return Ok(Instruction::Increment(amount.wrapping_add(*prev_amount)));
            }
            Err((prev, next))
        },
        IrRule::PtrIncrements => {
            if let (Instruction::PointerIncrement(prev_amount), Instruction::PointerIncrement(amount)) = (&prev, &next) {
                return Ok(Instruction::PointerIncrement(amount.wrapping_add(*prev_amount)));
            }
            Err((prev, next))
        },
        IrRule::BeforeRead => {
            match (&prev, &next) {
                (Instruction::Increment(_), Instruction::Read) => Ok(Instruction::Read),
                (Instruction::SetCell(_), Instruction::Read) => Ok(Instruction::Read),
                _ => Err((prev, next)),
            }
        },
        IrRule::DeadLoop => {
            if let (Instruction::SetCell(0), Instruction::Loop(_)) = (&prev, &next) {
                return Ok(Instruction::SetCell(0));
            }
            Err((prev, next))
        },
        IrRule::IncrementThenSet => {
            if let (Instruction::Increment(_), Instruction::SetCell(amount)) = (&prev, &next) {
                return Ok(Instruction::SetCell(*amount));
            }
            Err((prev, next))
        },
        IrRule::SetThenIncrement => {
            if let (Instruction::SetCell(set_amount), Instruction::Increment(inc_amount)) = (&prev, &next) {
                return Ok(Instruction::SetCell(set_amount.wrapping_add(*inc_amount)));
            }
            Err((prev, next))
        },
        IrRule::SetThenSet => {
            if let (Instruction::SetCell(_), Instruction::SetCell(amount)) = (&prev, &next) {
                return Ok(Instruction::SetCell(*amount));
            }
            Err((prev, next))
        },
        IrRule::LoopThenSetZero => {
            if let (Instruction::Loop(_), Instruction::SetCell(0)) = (&prev, &next) {
                return Ok(prev);
            }
            Err((prev, next))
        },
    }
}

/// Merge every run of adjacent instructions that merge under `rule`.
pub(crate) fn ir_coalesce_instrs(instrs: Vec<Instruction>, rule: IrRule) -> (r: Vec<Instruction>)
    ensures
        inss_view(r@) == ir_coalesce(inss_view(instrs@), rule),
{
    let ghost v = inss_view(instrs@);
    let mut result: Vec<Instruction> = Vec::new();
    let mut current: Option<Instruction> = None;
    proof { lemma_inss_view_empty(); }
    for instr in it: instrs.into_iter()
        invariant
            it.seq() == instrs@,
            v == inss_view(instrs@),
            match current {
                None => it.index() == 0 && result@.len() == 0,
                Some(c) => 0 < it.index() && inss_view(result@) + ir_coalesce_from(c@, v.subrange(it.index() as int, v.len() as int), rule) == ir_coalesce(v, rule),
            },
    {
        let ghost k = it.index() as int;
        assert(v[k] == instr@);
        let taken = current;
        match taken {
            None => {
                assert(v.drop_first() =~= v.subrange(1, v.len() as int));
                current = Some(instr);
            },
            Some(prev) => {
                let ghost rest = v.subrange(k, v.len() as int);
                assert(rest.drop_first() =~= v.subrange(k + 1, v.len() as int));
                match ir_try_merge(rule, prev, instr) {
                    Ok(merged) => {
                        current = Some(merged);
                    },
                    Err((p, n)) => {
                        let ghost before = result@;
                        result.push(p);
                        proof {
                            lemma_inss_view_push(before, p);
                            assert(inss_view(result@) + ir_coalesce_from(n@, v.subrange(k + 1, v.len() as int), rule)
                                =~= inss_view(before) + (seq![p@] + ir_coalesce_from(n@, v.subrange(k + 1, v.len() as int), rule)));
                        }
                        current = Some(n);
                    },
                }
            },
        }
    }
    match current {
        None => {
            assert(v.len() == 0);
        },
        Some(c) => {
            let ghost before = result@;
            result.push(c);
            proof {
                lemma_inss_view_push(before, c);
                assert(v.subrange(v.len() as int, v.len() as int) =~= Seq::<Ins>::empty());
            }
        },
    }
    result
}

fn is_zero_increment_instr(instr: &Instruction, pointer: bool) -> (r: bool)
    ensures
        r == (if pointer { is_zero_ptr_increment(instr@) } else { is_zero_increment(instr@) }),
{
    if pointer {
        matches!(instr, Instruction::PointerIncrement(0))
    } else {
        matches!(instr, Instruction::Increment(0))
    }
}

/// Drop the increments of zero (of a cell, or of the pointer).
fn remove_zero_increments(instrs: Vec<Instruction>, pointer: bool) -> (r: Vec<Instruction>)
    ensures
        inss_view(r@) == drop_zero_increments(inss_view(instrs@), pointer),
{
    let ghost v = inss_view(instrs@);
    let mut result: Vec<Instruction> = Vec::new();
    proof { lemma_inss_view_empty(); }
    for instr in it: instrs.into_iter()
        invariant
            it.seq() == instrs@,
            v == inss_view(instrs@),
            inss_view(result@) == drop_zero_increments(v.take(it.index() as int), pointer),
    {
        let ghost k = it.index() as int;
        assert(v.take(k + 1).drop_last() =~= v.take(k));
        assert(v.take(k + 1).last() == instr@);
        if !is_zero_increment_instr(&instr, pointer) {
            let ghost before = result@;
            result.push(instr);
            proof { lemma_inss_view_push(before, result@.last()); }
        }
    }
    assert(v.take(v.len() as int) =~= v);
    result
}

fn is_zeroing_loop_body(body: &Vec<Instruction>) -> (r: bool)
    ensures
        r == is_zeroing_body(inss_view(body@)),
{
    body.len() == 1 && matches!(body[0], Instruction::Increment(-1))
}

/// Transform a loop body, and then the level that holds it.
fn ir_apply_pass_node(p: IrPass, instr: Instruction) -> (r: Instruction)
    ensures
        r@ == ir_pass_node(p, instr@),
    decreases instr,
{
    match instr {
        Instruction::Loop(body) => {
            proof { lemma_ins_view_loop(body); }
            if p == IrPass::SimplifyLoops && is_zeroing_loop_body(&body) {
                return Instruction::SetCell(0);
            }
            let transformed = ir_apply_pass(p, body);
            proof { lemma_ins_view_loop(transformed); }
            Instruction::Loop(transformed)
        },
        other => other,
    }
}

/// Apply a pass to every loop body, and then to this level.
fn ir_apply_pass(p: IrPass, instrs: Vec<Instruction>) -> (r: Vec<Instruction>)
    ensures
        inss_view(r@) == ir_pass_seq(p, inss_view(instrs@)),
    decreases instrs,
{
    let ghost v = inss_view(instrs@);
    let ghost orig = instrs;
    let mut mapped: Vec<Instruction> = Vec::new();
    for instr in it: instrs.into_iter()
        invariant
            it.seq() == orig@,
            v == inss_view(orig@),
            mapped@.len() == it.index(),
            forall|i: int| 0 <= i < it.index() ==> ins_view(#[trigger] mapped@[i]) == ir_pass_node(p, v[i]),
    {
        let ghost k = it.index() as int;
        assert(orig@[k] == instr);
        assert(decreases_to!(orig => instr));
        let transformed = ir_apply_pass_node(p, instr);
        mapped.push(transformed);
    }
    assert(inss_view(mapped@) =~= ir_pass_each(p, v));
    ir_apply_top(p, mapped)
}

fn ir_apply_top(p: IrPass, instrs: Vec<Instruction>) -> (r: Vec<Instruction>)
    ensures
        inss_view(r@) == ir_pass_top(p, inss_view(instrs@)),
{
    match p {
        IrPass::CombineIncrements => remove_zero_increments(ir_coalesce_instrs(instrs, IrRule::Increments), false),
        IrPass::CombinePtrIncrements => remove_zero_increments(ir_coalesce_instrs(instrs, IrRule::PtrIncrements), true),
        IrPass::CombineBeforeRead => ir_coalesce_instrs(instrs, IrRule::BeforeRead),
        IrPass::SimplifyLoops => instrs,
        IrPass::DeadLoops => ir_coalesce_instrs(instrs, IrRule::DeadLoop),
        IrPass::CombineSets => ir_coalesce_instrs(
            ir_coalesce_instrs(ir_coalesce_instrs(instrs, IrRule::IncrementThenSet), IrRule::SetThenIncrement),
            IrRule::SetThenSet,
        ),
        IrPass::RedundantSets => ir_coalesce_instrs(instrs, IrRule::LoopThenSetZero),
    }
}

/// Combine consecutive increments into a single increment instruction,
/// and drop increments of zero.
pub fn combine_increments(instrs: Vec<Instruction>) -> (r: Vec<Instruction>)
    ensures
        inss_view(r@) == ir_pass_seq(IrPass::CombineIncrements, inss_view(instrs@)),
{
    ir_apply_pass(IrPass::CombineIncrements, instrs)
}

/// Combine consecutive pointer increments into a single pointer increment,
/// and drop pointer increments of zero.
pub fn combine_ptr_increments(instrs: Vec<Instruction>) -> (r: Vec<Instruction>)
    ensures
        inss_view(r@) == ir_pass_seq(IrPass::CombinePtrIncrements, inss_view(instrs@)),
{
    ir_apply_pass(IrPass::CombinePtrIncrements, instrs)
}

/// Remove dead code before a read: an increment or a set that the read
/// overwrites.
pub fn combine_before_read(instrs: Vec<Instruction>) -> (r: Vec<Instruction>)
    ensures
        inss_view(r@) == ir_pass_seq(IrPass::CombineBeforeRead, inss_view(instrs@)),
{
    ir_apply_pass(IrPass::CombineBeforeRead, instrs)
}

/// Replace the loop `[-]` by a set to zero, at every depth.
pub fn simplify_loops(instrs: Vec<Instruction>) -> (r: Vec<Instruction>)
    ensures
        inss_view(r@) == ir_pass_seq(IrPass::SimplifyLoops, inss_view(instrs@)),
{
    ir_apply_pass(IrPass::SimplifyLoops, instrs)
}

/// Remove any loops where we know the current cell is zero: those right
/// after a set to zero.
pub fn remove_dead_loops(instrs: Vec<Instruction>) -> (r: Vec<Instruction>)
    ensures
        inss_view(r@) == ir_pass_seq(IrPass::DeadLoops, inss_view(instrs@)),
{
    ir_apply_pass(IrPass::DeadLoops, instrs)
}

/// Combine set instructions with other set instructions or increments.
pub fn combine_set_and_increments(instrs: Vec<Instruction>) -> (r: Vec<Instruction>)
    ensures
        inss_view(r@) == ir_pass_seq(IrPass::CombineSets, inss_view(instrs@)),
{
    ir_apply_pass(IrPass::CombineSets, instrs)
}

/// Remove sets to zero right after a loop, at every depth, and a set to
/// zero at the start of the program, where cells are zero already.
pub fn remove_redundant_sets(instrs: Vec<Instruction>) -> (r: Vec<Instruction>)
    ensures
        inss_view(r@) == ir_remove_redundant_sets_spec(inss_view(instrs@)),
{
    let mut reduced = ir_apply_pass(IrPass::RedundantSets, instrs);
    if reduced.len() > 0 && matches!(reduced[0], Instruction::SetCell(0)) {
        let ghost before = reduced@;
        assert(inss_view(before)[0] == ins_view(before[0]));
        reduced.remove(0);
        assert(inss_view(reduced@) =~= inss_view(before).drop_first());
    }
    reduced
}

/// A set to zero after every loop, at every depth.
pub open spec fn ir_known_zero_node(n: Ins) -> Ins
    decreases n, 0int, 0int,
{
    match n {
        Ins::Loop(body) => Ins::Loop(ir_known_zero_prefix(body, body.len() as int)),
        other => other,
    }
}

/// The first `n` instructions of `s`, each loop followed by a set to zero.
pub open spec fn ir_known_zero_prefix(s: Seq<Ins>, n: int) -> Seq<Ins>
    decreases s, 1int, n,
{
    if n <= 0 || n > s.len() {
        Seq::empty()
    } else {
        let before = ir_known_zero_prefix(s, n - 1);
        match s[n - 1] {
            Ins::Loop(_) => before.push(ir_known_zero_node(s[n - 1])).push(Ins::SetCell(0)),
            other => before.push(other),
        }
    }
}

/// Cells start at zero and a loop leaves its cell at zero: a set to zero
/// at the start and after every loop says so.
pub open spec fn ir_annotate_known_zero_spec(s: Seq<Ins>) -> Seq<Ins> {
    seq![Ins::SetCell(0)] + ir_known_zero_prefix(s, s.len() as int)
}

fn ir_known_zero_loop(instr: &Instruction) -> (r: Instruction)
    ensures
        r@ == ir_known_zero_node(instr@),
    decreases instr,
{
    match instr {
        Instruction::Loop(body) => {
            let annotated = annotate_known_zero_inner(body.as_slice());
            proof { lemma_ins_view_loop(annotated); }
            Instruction::Loop(annotated)
        },
        other => clone_instruction(other),
    }
}

fn annotate_known_zero_inner(instrs: &[Instruction]) -> (r: Vec<Instruction>)
    ensures
        inss_view(r@) == ir_known_zero_prefix(inss_view(instrs@), instrs@.len() as int),
    decreases instrs@,
{
    let ghost v = inss_view(instrs@);
    let mut result: Vec<Instruction> = Vec::new();
    let mut i: usize = 0;
    proof { lemma_inss_view_empty(); }
    while i < instrs.len()
        invariant
            i <= instrs@.len(),
            v == inss_view(instrs@),
            inss_view(result@) == ir_known_zero_prefix(v, i as int),
        decreases instrs@.len() - i,
    {
        assert(v[i as int] == ins_view(instrs@[i as int]));
        let ghost before = result@;
        let annotated = ir_known_zero_loop(&instrs[i]);
        result.push(annotated);
        proof { lemma_inss_view_push(before, annotated); }
        if let Instruction::Loop(_) = &instrs[i] {
            // After a loop, we know the cell is currently zero.
            let ghost with_loop = result@;
            result.push(Instruction::SetCell(0));
            proof { lemma_inss_view_push(with_loop, Instruction::SetCell(0)); }
        }
        i += 1;
    }
    result
}

/// Say with a set to zero where the current cell is known to be zero: at
/// the start, and after every loop.
pub fn annotate_known_zero(instrs: Vec<Instruction>) -> (r: Vec<Instruction>)
    ensures
        inss_view(r@) == ir_annotate_known_zero_spec(inss_view(instrs@)),
{
    let mut result: Vec<Instruction> = Vec::new();
    result.push(Instruction::SetCell(0));
    proof {
        lemma_inss_view_empty();
        lemma_inss_view_push(Seq::empty(), Instruction::SetCell(0));
    }
    let mut inner = annotate_known_zero_inner(instrs.as_slice());
    let ghost before = result@;
    let ghost inner_view = inner@;
    result.append(&mut inner);
    assert(inss_view(result@) =~= inss_view(before) + inss_view(inner_view));
    result
}

/// Reads, writes and loops: instructions with an effect that can be seen,
/// or that may not terminate.
pub open spec fn ir_has_effect(i: Ins) -> bool {
    i is Read || i is Write || i is Loop
}

/// The length of the first `n` instructions of `s` once the pure ones at
/// their end are gone.
pub open spec fn ir_effect_end(s: Seq<Ins>, n: int) -> int
    decreases n,
{
    if n <= 0 {
        0
    } else if ir_has_effect(s[n - 1]) {
        n
    } else {
        ir_effect_end(s, n - 1)
    }
}

proof fn lemma_ir_effect_end(s: Seq<Ins>, n: int)
    requires
        0 <= n <= s.len(),
    ensures
        0 <= ir_effect_end(s, n) <= n,
        ir_effect_end(s, n) > 0 ==> ir_has_effect(s[ir_effect_end(s, n) - 1]),
        forall|j: int| ir_effect_end(s, n) <= j < n ==> !ir_has_effect(#[trigger] s[j]),
    decreases n,
{
    if n > 0 {
        lemma_ir_effect_end(s, n - 1);
    }
}

/// Remove code at the end of the program that has no side effects: no
/// reads or writes come after it, nor loops (which may not terminate).
pub fn remove_pure_code(instrs: Vec<Instruction>) -> (r: Vec<Instruction>)
    ensures
        inss_view(r@) == inss_view(instrs@).take(ir_effect_end(inss_view(instrs@), instrs@.len() as int)),
{
    let ghost v = inss_view(instrs@);
    let ghost orig = instrs@;
    let mut instrs = instrs;
    proof { lemma_ir_effect_end(v, v.len() as int); }
    while instrs.len() > 0 && !matches!(instrs[instrs.len() - 1], Instruction::Read | Instruction::Write | Instruction::Loop(_))
        invariant
            instrs@.len() <= orig.len(),
            instrs@ == orig.take(instrs@.len() as int),
            v == inss_view(orig),
            ir_effect_end(v, v.len() as int) <= instrs@.len(),
            forall|j: int| ir_effect_end(v, v.len() as int) <= j < v.len() ==> !ir_has_effect(#[trigger] v[j]),
        decreases instrs@.len(),
    {
        let last = instrs.len() - 1;
        assert(instrs@[last as int] == orig[last as int]);
        assert(v[last as int] == ins_view(orig[last as int]));
        proof { lemma_ir_effect_end(v, v.len() as int); }
        assert(ir_effect_end(v, v.len() as int) != last + 1);
        instrs.pop();
        assert(instrs@ =~= orig.take(instrs@.len() as int));
    }
    proof {
        if instrs@.len() > 0 {
            let last = instrs@.len() - 1;
            assert(instrs@[last] == orig[last]);
            assert(v[last] == ins_view(orig[last]));
            lemma_ir_effect_end_dominated(v, v.len() as int, last);
        }
    }
    assert(instrs@ =~= orig.take(ir_effect_end(v, v.len() as int)));
    assert(inss_view(instrs@) =~= v.take(ir_effect_end(v, v.len() as int)));
    instrs
}

proof fn lemma_ir_effect_end_dominated(s: Seq<Ins>, n: int, k: int)
    requires
        0 <= k < n <= s.len(),
        ir_has_effect(s[k]),
        forall|j: int| k < j < n ==> !ir_has_effect(#[trigger] s[j]),
    ensures
        ir_effect_end(s, n) == k + 1,
    decreases n,
{
    if n > k + 1 {
        lemma_ir_effect_end_dominated(s, n - 1, k);
    }
}

/// All the optimisations of the flat IR, in order.
pub open spec fn ir_optimize_spec(s: Seq<Ins>) -> Seq<Ins> {
    let combined = ir_pass_seq(IrPass::CombinePtrIncrements, ir_pass_seq(IrPass::CombineIncrements, s));
    let annotated = ir_annotate_known_zero_spec(combined);
    let simplified = ir_pass_seq(
        IrPass::CombineSets,
        ir_pass_seq(IrPass::DeadLoops, ir_pass_seq(IrPass::CombineSets, ir_pass_seq(IrPass::SimplifyLoops, annotated))),
    );
    let reduced = ir_pass_seq(IrPass::CombineBeforeRead, ir_remove_redundant_sets_spec(simplified));
    reduced.take(ir_effect_end(reduced, reduced.len() as int))
}

/// Apply all the optimisations of the flat IR.
pub fn optimize(instrs: Vec<Instruction>) -> (r: Vec<Instruction>)
    ensures
        inss_view(r@) == ir_optimize_spec(inss_view(instrs@)),
{
    let combined = combine_ptr_increments(combine_increments(instrs));
    let annotated = annotate_known_zero(combined);
    // Removing dead loops can require us to collapse increments first:
    // Set 1, Increment -1, Loop => Set 0
    // however, it can also create opportunities to collapse increments:
    // Set 0, Loop, Increment 1 => Set 1
    // so we need to run it twice.
    let simplified = combine_set_and_increments(remove_dead_loops(combine_set_and_increments(simplify_loops(annotated))));
    remove_pure_code(combine_before_read(remove_redundant_sets(simplified)))
}

} // verus!
