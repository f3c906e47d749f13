//! Compile-time speculative execution of BF programs.
use crate::bfir::{change_entries, node_view, nodes_view, AstNode, Cell, Node};
use crate::bfir::{get_position, node_position};
use crate::bounds::{highest_cell_index, highest_cell_index_spec};
use crate::diagnostics::Warning;
use vstd::prelude::*;

verus! {

/// How far compile-time execution got.
#[derive(Debug, PartialEq, Eq, Clone, Copy, Structural)]
pub enum Outcome {
    /// Ran to the end, with this many steps left over.
    Completed(u64),
    /// Stopped at a read, whose value is only known at runtime.
    ReachedRuntimeValue,
    /// Stopped at an instruction that would access a cell off the tape.
    RuntimeError,
    /// Stopped because the step budget ran out.
    OutOfSteps,
}

/// The state of the machine after compile-time execution, and the point
/// in the program from which runtime execution should continue.
#[derive(Debug, PartialEq, Eq)]
pub struct ExecutionState<'a> {
    pub start_instr: Option<&'a AstNode>,
    pub cells: Vec<Cell>,
    pub cell_ptr: isize,
    pub outputs: Vec<i8>,
}

/// The model of an `ExecutionState`.
pub struct Machine {
    pub start: Option<Node>,
    pub cells: Seq<Cell>,
    pub ptr: int,
    pub outputs: Seq<i8>,
}

impl<'a> View for ExecutionState<'a> {
    type V = Machine;

    open spec fn view(&self) -> Machine {
        Machine {
            start: match self.start_instr {
                Some(instr) => Some(node_view(*instr)),
                None => None,
            },
            cells: self.cells@,
            ptr: self.cell_ptr as int,
            outputs: self.outputs@,
        }
    }
}

/// The cell pointer points into the tape.
pub open spec fn pointer_on_tape(m: Machine) -> bool {
    0 <= m.ptr < m.cells.len() <= isize::MAX
}

pub open spec fn on_tape(m: Machine, i: int) -> bool {
    0 <= i < m.cells.len()
}

pub open spec fn with_start(m: Machine, n: Node) -> Machine {
    Machine { start: Some(n), cells: m.cells, ptr: m.ptr, outputs: m.outputs }
}

pub open spec fn with_cells(m: Machine, cells: Seq<Cell>) -> Machine {
    Machine { start: m.start, cells, ptr: m.ptr, outputs: m.outputs }
}

pub open spec fn with_ptr(m: Machine, ptr: int) -> Machine {
    Machine { start: m.start, cells: m.cells, ptr, outputs: m.outputs }
}

pub open spec fn with_output(m: Machine, value: i8) -> Machine {
    Machine { start: m.start, cells: m.cells, ptr: m.ptr, outputs: m.outputs.push(value) }
}

/// Every destination of a multiply table lies on the tape.
pub open spec fn multiply_targets_on_tape(changes: Map<isize, Cell>, m: Machine) -> bool {
    forall|k: isize| #[trigger] changes.contains_key(k) ==> on_tape(m, m.ptr + k)
}

/// The tape after a multiply-move: each destination gains the current cell
/// times its factor, and the current cell becomes zero.
pub open spec fn multiply_cells(changes: Map<isize, Cell>, m: Machine) -> Seq<Cell> {
    Seq::new(
        m.cells.len(),
        |j: int|
            if j == m.ptr {
                0i8
            } else if isize::MIN <= j - m.ptr <= isize::MAX && changes.contains_key((j - m.ptr) as isize) {
                vstd::wrapping::i8_specs::wrapping_add(
                    m.cells[j],
                    vstd::wrapping::i8_specs::wrapping_mul(m.cells[m.ptr], changes[(j - m.ptr) as isize]),
                )
            } else {
                m.cells[j]
            },
    )
}

/// Running `instrs` from index `idx` with at most `steps` steps: the outcome
/// and the machine afterwards. Each instruction, and each completed pass
/// through a loop body, takes one step. A read takes `read` as its input,
/// or stops execution when there is none.
pub open spec fn run(instrs: Seq<Node>, idx: nat, m: Machine, steps: u64, read: Option<i8>) -> (Outcome, Machine)
    decreases steps, instrs,
{
    if idx >= instrs.len() || steps == 0 {
        if steps == 0 {
            (Outcome::OutOfSteps, if idx < instrs.len() { with_start(m, instrs[idx as int]) } else { m })
        } else {
            (Outcome::Completed(steps), m)
        }
    } else {
        let instr = instrs[idx as int];
        let next_steps = (steps - 1) as u64;
        match instr {
            Node::Increment { amount, offset, .. } => {
                let target = m.ptr + offset;
                if on_tape(m, target) {
                    let cells = m.cells.update(target, vstd::wrapping::i8_specs::wrapping_add(m.cells[target], amount));
                    run(instrs, idx + 1, with_cells(m, cells), next_steps, read)
                } else {
                    (Outcome::RuntimeError, with_start(m, instr))
                }
            },
            Node::SetCell { amount, offset, .. } => {
                let target = m.ptr + offset;
                if on_tape(m, target) {
                    run(instrs, idx + 1, with_cells(m, m.cells.update(target, amount)), next_steps, read)
                } else {
                    (Outcome::RuntimeError, with_start(m, instr))
                }
            },
            Node::PointerIncrement { amount, .. } => {
                let target = m.ptr + amount;
                if on_tape(m, target) {
                    run(instrs, idx + 1, with_ptr(m, target), next_steps, read)
                } else {
                    (Outcome::RuntimeError, with_start(m, instr))
                }
            },
            Node::MultiplyMove { changes, .. } => {
                if m.cells[m.ptr] == 0 {
                    // Like the loop it replaces, it does nothing on a zero cell.
                    run(instrs, idx + 1, m, next_steps, read)
                } else if multiply_targets_on_tape(changes, m) {
                    run(instrs, idx + 1, with_cells(m, multiply_cells(changes, m)), next_steps, read)
                } else {
                    (Outcome::RuntimeError, with_start(m, instr))
                }
            },
            Node::Write { .. } => run(instrs, idx + 1, with_output(m, m.cells[m.ptr]), next_steps, read),
            Node::Read { .. } => match read {
                Some(value) => run(instrs, idx + 1, with_cells(m, m.cells.update(m.ptr, value)), next_steps, read),
                None => (Outcome::ReachedRuntimeValue, with_start(m, instr)),
            },
            Node::Loop { body, .. } => {
                if m.cells[m.ptr] == 0 {
                    run(instrs, idx + 1, m, next_steps, read)
                } else {
                    let (outcome, after) = run(body, 0, m, steps, read);
                    match outcome {
                        Outcome::Completed(remaining) => if 0 < remaining <= steps {
                            run(instrs, idx, after, (remaining - 1) as u64, read)
                        } else {
                            (outcome, after)
                        },
                        _ => (outcome, if after.start is None { with_start(after, instr) } else { after }),
                    }
                }
            },
        }
    }
}

/// The tape that compile-time execution starts from: every cell the program
/// can reach, all zero.
pub open spec fn initial_machine(instrs: Seq<Node>) -> Machine {
    Machine {
        start: None,
        cells: Seq::new((highest_cell_index_spec(instrs) + 1) as nat, |i: int| 0i8),
        ptr: 0,
        outputs: Seq::empty(),
    }
}

// It takes around 1 million steps to finish executing bottles.bf at
// compile time.
pub const MAX_STEPS: u64 = 10000000;

impl<'a> ExecutionState<'a> {
    /// The state before anything has run: the tape that `instrs` can
    /// reach, zeroed, and the pointer at cell zero.
    pub fn initial(instrs: &[AstNode]) -> (r: ExecutionState<'a>)
            ensures
            r@ == initial_machine(nodes_view(instrs@)),
            pointer_on_tape(r@),
    {
        let len = highest_cell_index(instrs) + 1;
        let cells: Vec<Cell> = vec![0; len];
        assert(cells@ =~= initial_machine(nodes_view(instrs@)).cells);
        ExecutionState { start_instr: None, cells, cell_ptr: 0, outputs: Vec::new() }
    }
}

/// Carry out a multiply-move whose destinations all lie on the tape.
fn multiply_move(changes: &std::collections::HashMap<isize, Cell>, state: &mut ExecutionState)
    requires
        pointer_on_tape(old(state)@),
        multiply_targets_on_tape(changes@, old(state)@),
    ensures
        final(state)@ == with_cells(old(state)@, multiply_cells(changes@, old(state)@)),
{
    let ghost m = state@;
    let entries = change_entries(changes);
    let cell_ptr = state.cell_ptr;
    let cell_value = state.cells[cell_ptr as usize];
    let mut i: usize = 0;
    while i < entries.len()
        invariant
            i <= entries@.len(),
            m == old(state)@,
            cell_ptr == m.ptr,
            cell_value == m.cells[m.ptr],
            pointer_on_tape(m),
            multiply_targets_on_tape(changes@, m),
            state.start_instr == old(state).start_instr,
            state.cell_ptr == cell_ptr,
            state.outputs@ == m.outputs,
            state.cells@.len() == m.cells.len(),
            forall|j: int| #![trigger entries@[j]] 0 <= j < entries@.len() ==> changes@.contains_key(entries@[j].0) && changes@[entries@[j].0] == entries@[j].1,
            forall|k: isize| #[trigger] changes@.contains_key(k) ==> exists|j: int| 0 <= j < entries@.len() && entries@[j].0 == k,
            forall|j1: int, j2: int| 0 <= j1 < entries@.len() && 0 <= j2 < entries@.len() && j1 != j2 ==> entries@[j1].0 != entries@[j2].0,
            forall|j: int| 0 <= j < i ==> state.cells@[m.ptr + #[trigger] entries@[j].0] == vstd::wrapping::i8_specs::wrapping_add(
                m.cells[m.ptr + entries@[j].0], vstd::wrapping::i8_specs::wrapping_mul(cell_value, entries@[j].1)),
            forall|x: int| 0 <= x < m.cells.len() && (forall|j: int| 0 <= j < i ==> m.ptr + #[trigger] entries@[j].0 != x) ==> state.cells@[x] == m.cells[x],
        decreases entries@.len() - i,
    {
        let (offset, factor) = entries[i];
        assert(changes@.contains_key(entries@[i as int].0));
        let dest = (cell_ptr as i128 + offset as i128) as usize;
        let current_val = state.cells[dest];
        let ghost prev = state.cells@;
        state.cells.set(dest, current_val.wrapping_add(cell_value.wrapping_mul(factor)));
        proof {
            assert forall|j: int| 0 <= j < i + 1 implies state.cells@[m.ptr + #[trigger] entries@[j].0] == vstd::wrapping::i8_specs::wrapping_add(
                m.cells[m.ptr + entries@[j].0], vstd::wrapping::i8_specs::wrapping_mul(cell_value, entries@[j].1)) by {
                if j < i {
                    assert(entries@[j].0 != entries@[i as int].0);
                    assert(prev[m.ptr + entries@[j].0] == vstd::wrapping::i8_specs::wrapping_add(
                        m.cells[m.ptr + entries@[j].0], vstd::wrapping::i8_specs::wrapping_mul(cell_value, entries@[j].1)));
                } else {
                    assert(prev[dest as int] == m.cells[dest as int]) by {
                        assert forall|j2: int| 0 <= j2 < i implies m.ptr + #[trigger] entries@[j2].0 != dest as int by {
                            assert(entries@[j2].0 != entries@[i as int].0);
                        }
                    }
                }
            }
        }
        i += 1;
    }
    state.cells.set(cell_ptr as usize, 0);
    assert forall|x: int| 0 <= x < m.cells.len() implies state.cells@[x] == multiply_cells(changes@, m)[x] by {
        if x != m.ptr {
            if isize::MIN <= x - m.ptr <= isize::MAX && changes@.contains_key((x - m.ptr) as isize) {
                let k = (x - m.ptr) as isize;
                let j = choose|j: int| 0 <= j < entries@.len() && entries@[j].0 == k;
                assert(state.cells@[m.ptr + entries@[j].0] == vstd::wrapping::i8_specs::wrapping_add(
                    m.cells[m.ptr + entries@[j].0], vstd::wrapping::i8_specs::wrapping_mul(cell_value, entries@[j].1)));
            } else {
                assert forall|j: int| 0 <= j < entries@.len() implies m.ptr + #[trigger] entries@[j].0 != x by {
                    assert(changes@.contains_key(entries@[j].0));
                }
            }
        }
    }
    assert(state.cells@ =~= multiply_cells(changes@, m));
}

fn multiply_targets_ok(changes: &std::collections::HashMap<isize, Cell>, state: &ExecutionState) -> (r: bool)
    ensures
        r == multiply_targets_on_tape(changes@, state@),
{
    let entries = change_entries(changes);
    let len = state.cells.len();
    let mut i: usize = 0;
    while i < entries.len()
        invariant
            i <= entries@.len(),
            len == state.cells@.len(),
            forall|j: int| 0 <= j < i ==> on_tape(state@, state@.ptr + #[trigger] entries@[j].0),
            forall|j: int| #![trigger entries@[j]] 0 <= j < entries@.len() ==> changes@.contains_key(entries@[j].0) && changes@[entries@[j].0] == entries@[j].1,
            forall|k: isize| #[trigger] changes@.contains_key(k) ==> exists|j: int| 0 <= j < entries@.len() && entries@[j].0 == k,
        decreases entries@.len() - i,
    {
        let dest = state.cell_ptr as i128 + entries[i].0 as i128;
        if dest < 0 || dest >= len as i128 {
            assert(changes@.contains_key(entries@[i as int].0));
            return false;
        }
        i += 1;
    }
    assert forall|k: isize| #[trigger] changes@.contains_key(k) implies on_tape(state@, state@.ptr + k) by {
        let j = choose|j: int| 0 <= j < entries@.len() && entries@[j].0 == k;
        assert(on_tape(state@, state@.ptr + entries@[j].0));
    }
    true
}

/// Run `instrs` from its first instruction on `state`, for at most `steps`
/// steps, reading `dummy_read_value` at each read (or stopping there if
/// there is none).
fn execute_inner<'a>(
    instrs: &'a [AstNode],
    state: &mut ExecutionState<'a>,
    steps: u64,
    dummy_read_value: Option<i8>,
) -> (outcome: Outcome)
    requires
        pointer_on_tape(old(state)@),
    ensures
        pointer_on_tape(final(state)@),
        final(state)@.cells.len() == old(state)@.cells.len(),
        (outcome, final(state)@) == run(nodes_view(instrs@), 0, old(state)@, steps, dummy_read_value),
        outcome matches Outcome::Completed(remaining) ==> 0 < remaining <= steps,
    decreases instrs@,
{
    let ghost program = nodes_view(instrs@);
    let ghost result = run(program, 0, state@, steps, dummy_read_value);
    let mut steps_left = steps;
    let mut instr_idx: usize = 0;
    while instr_idx < instrs.len() && steps_left > 0
        invariant
            instr_idx <= instrs@.len(),
            steps_left <= steps,
            program == nodes_view(instrs@),
            pointer_on_tape(state@),
            state@.cells.len() == old(state)@.cells.len(),
            result == run(nodes_view(instrs@), 0, old(state)@, steps, dummy_read_value),
            run(program, instr_idx as nat, state@, steps_left, dummy_read_value) == result,
        decreases steps_left,
    {
        let cell_ptr = state.cell_ptr;
        let ghost m = state@;
        let ghost next_steps = (steps_left - 1) as u64;
        assert(program[instr_idx as int] == node_view(instrs@[instr_idx as int]));
        match &instrs[instr_idx] {
            AstNode::Increment { amount, offset, .. } => {
                let target = cell_ptr as i128 + *offset as i128;
                if target < 0 || target >= state.cells.len() as i128 {
                    assert(!on_tape(m, m.ptr + *offset));
                    assert(run(program, instr_idx as nat, m, steps_left, dummy_read_value) == (Outcome::RuntimeError, with_start(m, program[instr_idx as int])));
                    state.start_instr = Some(&instrs[instr_idx]);
                    assert(state@ == with_start(m, program[instr_idx as int]));
                    return Outcome::RuntimeError;
                }
                let current = state.cells[target as usize];
                state.cells.set(target as usize, current.wrapping_add(*amount));
                assert(state@ == with_cells(m, m.cells.update(target as int, vstd::wrapping::i8_specs::wrapping_add(m.cells[target as int], *amount))));
                instr_idx += 1;
            },
            AstNode::SetCell { amount, offset, .. } => {
                let target = cell_ptr as i128 + *offset as i128;
                if target < 0 || target >= state.cells.len() as i128 {
                    state.start_instr = Some(&instrs[instr_idx]);
                    return Outcome::RuntimeError;
                }
                state.cells.set(target as usize, *amount);
                assert(state@ == with_cells(m, m.cells.update(target as int, *amount)));
                instr_idx += 1;
            },
            AstNode::PointerIncrement { amount, .. } => {
                let target = cell_ptr as i128 + *amount as i128;
                if target < 0 || target >= state.cells.len() as i128 {
                    state.start_instr = Some(&instrs[instr_idx]);
                    return Outcome::RuntimeError;
                }
                state.cell_ptr = target as isize;
                assert(state@ == with_ptr(m, target as int));
                instr_idx += 1;
            },
            AstNode::MultiplyMove { changes, .. } => {
                if state.cells[cell_ptr as usize] == 0 {
                    // Like the loop it replaces, it does nothing on a zero cell.
                    instr_idx += 1;
                } else if !multiply_targets_ok(changes, state) {
                    state.start_instr = Some(&instrs[instr_idx]);
                    return Outcome::RuntimeError;
                } else {
                    multiply_move(changes, state);
                    instr_idx += 1;
                }
            },
            AstNode::Write { .. } => {
                let cell_value = state.cells[cell_ptr as usize];
                state.outputs.push(cell_value);
                assert(state@ == with_output(m, m.cells[m.ptr]));
                instr_idx += 1;
            },
            AstNode::Read { .. } => {
                match dummy_read_value {
                    Some(value) => {
                        state.cells.set(cell_ptr as usize, value);
                        assert(state@ == with_cells(m, m.cells.update(m.ptr, value)));
                        instr_idx += 1;
                    },
                    None => {
                        state.start_instr = Some(&instrs[instr_idx]);
                        return Outcome::ReachedRuntimeValue;
                    },
                }
            },
            AstNode::Loop { body, .. } => {
                if state.cells[cell_ptr as usize] == 0 {
                    // Step over the loop because the current cell is zero.
                    instr_idx += 1;
                } else {
                    // Execute the loop body.
                    let loop_outcome = execute_inner(body.as_slice(), state, steps_left, dummy_read_value);
                    match loop_outcome {
                        Outcome::Completed(remaining_steps) => {
                            steps_left = remaining_steps;
                        },
                        _ => {
                            if state.start_instr.is_none() {
                                state.start_instr = Some(&instrs[instr_idx]);
                            }
                            return loop_outcome;
                        },
                    }
                }
            },
        }
        steps_left -= 1;
    }
    if steps_left == 0 {
        if instr_idx < instrs.len() {
            state.start_instr = Some(&instrs[instr_idx]);
        }
        Outcome::OutOfSteps
    } else {
        Outcome::Completed(steps_left)
    }
}

/// Run `instrs` on `state` for at most `steps` steps, taking
/// `dummy_read_value` as the input of every read, or stopping at the first
/// read if there is none.
pub fn execute_with_state<'a>(
    instrs: &'a [AstNode],
    state: &mut ExecutionState<'a>,
    steps: u64,
    dummy_read_value: Option<i8>,
) -> (outcome: Outcome)
    requires
        pointer_on_tape(old(state)@),
    ensures
        pointer_on_tape(final(state)@),
        (outcome, final(state)@) == run(nodes_view(instrs@), 0, old(state)@, steps, dummy_read_value),
{
    execute_inner(instrs, state, steps, dummy_read_value)
}

/// Compile time speculative execution of instructions: the final state of
/// the cells, any outputs, and the point in the code that runtime execution
/// continues from.
pub fn execute(instrs: &[AstNode], steps: u64) -> (state: ExecutionState<'_>)
    ensures
        state@ == run(nodes_view(instrs@), 0, initial_machine(nodes_view(instrs@)), steps, None).1,
        0 <= state.cell_ptr < state.cells@.len(),
{
    let mut state = ExecutionState::initial(instrs);
    execute_inner(instrs, &mut state, steps, None);
    state
}

/// What a run's outcome says of the instruction it stopped at: a runtime
/// error names the change or move that left the tape, a stop for input
/// names the read, and a completed run keeps what it started with.
pub proof fn law_outcome_names_instruction(s: Seq<Node>, j: nat, m: Machine, steps: u64, read: Option<i8>)
    ensures
        run(s, j, m, steps, read).0 == Outcome::RuntimeError ==> (run(s, j, m, steps, read).1.start matches Some(n) && (
            n is Increment || n is SetCell || n is PointerIncrement || n is MultiplyMove)),
        run(s, j, m, steps, read).0 == Outcome::ReachedRuntimeValue ==> (run(s, j, m, steps, read).1.start matches Some(n)
            && n is Read),
        run(s, j, m, steps, read).0 is Completed ==> run(s, j, m, steps, read).1.start == m.start,
    decreases steps, s,
{
    if j < s.len() && steps > 0 {
        let next_steps = (steps - 1) as u64;
        match s[j as int] {
            Node::Increment { amount, offset, .. } => {
                let target = m.ptr + offset;
                if on_tape(m, target) {
                    let cells = m.cells.update(target, vstd::wrapping::i8_specs::wrapping_add(m.cells[target], amount));
                    law_outcome_names_instruction(s, j + 1, with_cells(m, cells), next_steps, read);
                }
            },
            Node::SetCell { amount, offset, .. } => {
                let target = m.ptr + offset;
                if on_tape(m, target) {
                    law_outcome_names_instruction(s, j + 1, with_cells(m, m.cells.update(target, amount)), next_steps, read);
                }
            },
            Node::PointerIncrement { amount, .. } => {
                let target = m.ptr + amount;
                if on_tape(m, target) {
                    law_outcome_names_instruction(s, j + 1, with_ptr(m, target), next_steps, read);
                }
            },
            Node::MultiplyMove { changes, .. } => {
                if m.cells[m.ptr] == 0 {
                    law_outcome_names_instruction(s, j + 1, m, next_steps, read);
                } else if multiply_targets_on_tape(changes, m) {
                    law_outcome_names_instruction(s, j + 1, with_cells(m, multiply_cells(changes, m)), next_steps, read);
                }
            },
            Node::Write { .. } => {
                law_outcome_names_instruction(s, j + 1, with_output(m, m.cells[m.ptr]), next_steps, read);
            },
            Node::Read { .. } => {
                if let Some(value) = read {
                    law_outcome_names_instruction(s, j + 1, with_cells(m, m.cells.update(m.ptr, value)), next_steps, read);
                }
            },
            Node::Loop { body, .. } => {
                if m.cells[m.ptr] == 0 {
                    law_outcome_names_instruction(s, j + 1, m, next_steps, read);
                } else {
                    let (outcome, after) = run(body, 0, m, steps, read);
                    law_outcome_names_instruction(body, 0, m, steps, read);
                    if let Outcome::Completed(remaining) = outcome {
                        if 0 < remaining <= steps {
                            law_outcome_names_instruction(s, j, after, (remaining - 1) as u64, read);
                        }
                    }
                }
            },
        }
    }
}

/// `new` begins with `old`.
pub open spec fn extends(old: Seq<i8>, new: Seq<i8>) -> bool {
    old.len() <= new.len() && new.take(old.len() as int) == old
}

proof fn lemma_extends_push(a: Seq<i8>, b: Seq<i8>, v: i8)
    requires
        extends(a.push(v), b),
    ensures
        extends(a, b),
{
    assert(b.take(a.len() as int) =~= b.take(a.len() + 1int).take(a.len() as int));
    assert(a.push(v).take(a.len() as int) =~= a);
}

/// Compile-time execution only ever adds outputs after those it already
/// had, keeps the tape's length and keeps the pointer on the tape.
pub proof fn law_run_keeps_earlier_outputs(s: Seq<Node>, j: nat, m: Machine, steps: u64, read: Option<i8>)
    requires
        pointer_on_tape(m),
    ensures
        extends(m.outputs, run(s, j, m, steps, read).1.outputs),
        run(s, j, m, steps, read).1.cells.len() == m.cells.len(),
        pointer_on_tape(run(s, j, m, steps, read).1),
    decreases steps, s,
{
    crate::soundness::lemma_run_keeps_pointer(s, j, m, steps, read);
    assert(m.outputs.take(m.outputs.len() as int) =~= m.outputs);
    if j < s.len() && steps > 0 {
        let next_steps = (steps - 1) as u64;
        match s[j as int] {
            Node::Increment { amount, offset, .. } => {
                let target = m.ptr + offset;
                if on_tape(m, target) {
                    let cells = m.cells.update(target, vstd::wrapping::i8_specs::wrapping_add(m.cells[target], amount));
                    law_run_keeps_earlier_outputs(s, j + 1, with_cells(m, cells), next_steps, read);
                }
            },
            Node::SetCell { amount, offset, .. } => {
                let target = m.ptr + offset;
                if on_tape(m, target) {
                    law_run_keeps_earlier_outputs(s, j + 1, with_cells(m, m.cells.update(target, amount)), next_steps, read);
                }
            },
            Node::PointerIncrement { amount, .. } => {
                let target = m.ptr + amount;
                if on_tape(m, target) {
                    law_run_keeps_earlier_outputs(s, j + 1, with_ptr(m, target), next_steps, read);
                }
            },
            Node::MultiplyMove { changes, .. } => {
                if m.cells[m.ptr] == 0 {
                    law_run_keeps_earlier_outputs(s, j + 1, m, next_steps, read);
                } else if multiply_targets_on_tape(changes, m) {
                    law_run_keeps_earlier_outputs(s, j + 1, with_cells(m, multiply_cells(changes, m)), next_steps, read);
                }
            },
            Node::Write { .. } => {
                let m2 = with_output(m, m.cells[m.ptr]);
                law_run_keeps_earlier_outputs(s, j + 1, m2, next_steps, read);
                lemma_extends_push(m.outputs, run(s, j, m, steps, read).1.outputs, m.cells[m.ptr]);
            },
            Node::Read { .. } => {
                if let Some(value) = read {
                    law_run_keeps_earlier_outputs(s, j + 1, with_cells(m, m.cells.update(m.ptr, value)), next_steps, read);
                }
            },
            Node::Loop { body, .. } => {
                if m.cells[m.ptr] == 0 {
                    law_run_keeps_earlier_outputs(s, j + 1, m, next_steps, read);
                } else {
                    let (outcome, after) = run(body, 0, m, steps, read);
                    law_run_keeps_earlier_outputs(body, 0, m, steps, read);
                    if let Outcome::Completed(remaining) = outcome {
                        if 0 < remaining <= steps {
                            law_run_keeps_earlier_outputs(s, j, after, (remaining - 1) as u64, read);
                            let fin = run(s, j, m, steps, read).1.outputs;
                            assert(fin.take(m.outputs.len() as int) =~= fin.take(after.outputs.len() as int).take(m.outputs.len() as int));
                        }
                    }
                }
            },
        }
    }
}

/// The message of the warning about a runtime error found at compile time.
pub open spec fn runtime_error_message() -> Seq<char> {
    "This instruction accesses a cell outside the tape."@
}

/// Compile-time execution as `execute` does it, and a warning where it
/// stopped at an instruction that accesses a cell off the tape, with that
/// instruction's position.
pub fn execute_with_warning(instrs: &[AstNode], steps: u64) -> (r: (ExecutionState<'_>, Option<Warning>))
    ensures
        r.0@ == run(nodes_view(instrs@), 0, initial_machine(nodes_view(instrs@)), steps, None).1,
        0 <= r.0.cell_ptr < r.0.cells@.len(),
        (r.1 is Some) == (run(nodes_view(instrs@), 0, initial_machine(nodes_view(instrs@)), steps, None).0 == Outcome::RuntimeError),
        r.1 matches Some(w) ==> r.0@.start matches Some(n) && w.position == node_position(n) && w.message@ == runtime_error_message(),
{
    let mut state = ExecutionState::initial(instrs);
    let outcome = execute_inner(instrs, &mut state, steps, None);
    proof {
        law_outcome_names_instruction(nodes_view(instrs@), 0, initial_machine(nodes_view(instrs@)), steps, None);
    }
    let warning = match outcome {
        Outcome::RuntimeError => match state.start_instr {
            Some(instr) => Some(Warning {
                message: "This instruction accesses a cell outside the tape.".to_string(),
                position: get_position(instr),
            }),
            None => None,
        },
        _ => None,
    };
    (state, warning)
}

} // verus!
