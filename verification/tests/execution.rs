use std::collections::HashMap;

use quickcheck::{quickcheck, Arbitrary, Gen};
use rand::{Rng, RngCore};

use bfc::bfir::AstNode::{Increment, Loop, MultiplyMove, PointerIncrement, Read, SetCell, Write};
use bfc::bfir::{parse, AstNode, Cell, Position};
use bfc::bounds::MAX_CELL_INDEX;
use bfc::execution::{execute, ExecutionState, MAX_STEPS};

/// A program for property tests.
#[derive(Clone, Debug)]
struct Prog(Vec<AstNode>);

impl Arbitrary for Prog {
    fn arbitrary<G: Gen>(g: &mut G) -> Prog {
        let size = {
            let s = g.size();
            g.gen_range(0, s)
        };
        Prog((0..size).map(|_| arbitrary_instr(g, 5)).collect())
    }
}

// A separate function, so that the depth of loops can be bounded.
fn arbitrary_instr<G: Gen>(g: &mut G, max_depth: usize) -> AstNode {
    let modulus = if max_depth == 0 { 8 } else { 9 };

    // If max_depth is zero, don't create loops.
    match g.next_u32() % modulus {
        0 => Increment {
            amount: Arbitrary::arbitrary(g),
            offset: 0,
            position: Some(Position { start: 0, end: 0 }),
        },
        1 => PointerIncrement {
            amount: Arbitrary::arbitrary(g),
            position: Some(Position { start: 0, end: 0 }),
        },
        2 => SetCell {
            amount: Arbitrary::arbitrary(g),
            offset: 0,
            position: Some(Position { start: 0, end: 0 }),
        },
        3 => Read {
            position: Some(Position { start: 0, end: 0 }),
        },
        4 => Write {
            position: Some(Position { start: 0, end: 0 }),
        },
        5 => {
            let mut changes = HashMap::new();
            changes.insert(1, -1);
            MultiplyMove {
                changes,
                position: Some(Position { start: 0, end: 0 }),
            }
        }
        6 => {
            let mut changes = HashMap::new();
            changes.insert(1, 2);
            changes.insert(4, 10);
            MultiplyMove {
                changes,
                position: Some(Position { start: 0, end: 0 }),
            }
        }
        7 => {
            // A multiply by 2 loop that accesses a previous
            // cell. Quickcheck doesn't seem to generate these by
            // chance, but they often expose interesting bugs.
            let body = vec![
                Increment {
                    amount: -1,
                    offset: 0,
                    position: None,
                },
                PointerIncrement {
                    amount: -1,
                    position: None,
                },
                Increment {
                    amount: 2,
                    offset: 0,
                    position: None,
                },
                PointerIncrement {
                    amount: 1,
                    position: None,
                },
            ];
            Loop {
                body,
                position: None,
            }
        }
        8 => {
            assert!(max_depth > 0);
            let loop_length = g.next_u32() % 10;
            let mut body: Vec<_> = vec![];
            for _ in 0..loop_length {
                body.push(arbitrary_instr(g, max_depth - 1));
            }
            Loop {
                body,
                position: Some(Position { start: 0, end: 0 }),
            }
        }
        _ => unreachable!(),
    }
}


/// We can't evaluate outputs of runtime values at compile time.
#[test]
fn cant_evaluate_inputs() {
    let instrs = parse(",.").unwrap();
    let final_state = execute(&instrs, MAX_STEPS);

    assert_eq!(final_state,
               ExecutionState {
                   start_instr: Some(&instrs[0]),
                   cells: vec![0],
                   cell_ptr: 0,
                   outputs: vec![],
               });
}

#[test]
fn increment_executed() {
    let instrs = parse("+").unwrap();
    let final_state = execute(&instrs, MAX_STEPS);

    assert_eq!(final_state,
               ExecutionState {
                   start_instr: None,
                   cells: vec![1],
                   cell_ptr: 0,
                   outputs: vec![],
               });
}

#[test]
fn multiply_move_executed() {
    let mut changes = HashMap::new();
    changes.insert(1, 2);
    changes.insert(3, 3);

    let instrs = [// Initial cells: [2, 1, 0, 0]
        Increment { amount: 2, offset: 0, position: None },
        PointerIncrement { amount: 1, position: None },
        Increment { amount: 1, offset: 0, position: None },
        PointerIncrement { amount: -1, position: None },

        MultiplyMove { changes: changes, position: None }];

    let final_state = execute(&instrs, MAX_STEPS);
    assert_eq!(final_state,
               ExecutionState {
                   start_instr: None,
                   cells: vec![0, 5, 0, 6],
                   cell_ptr: 0,
                   outputs: vec![],
               });
}

#[test]
fn multiply_move_wrapping() {
    let mut changes = HashMap::new();
    changes.insert(1, 3);
    let instrs = [Increment { amount: 100, offset: 0, position: None }, MultiplyMove { changes: changes, position: None }];

    let final_state = execute(&instrs, MAX_STEPS);
    assert_eq!(final_state,
               ExecutionState {
                   start_instr: None,
                   // 100 * 3 mod 256 == 44
                   cells: vec![0, 44],
                   cell_ptr: 0,
                   outputs: vec![],
               });
}



#[test]
fn set_executed() {
    let instrs = [SetCell { amount: 2, offset: 0, position: None }];
    let final_state = execute(&instrs, MAX_STEPS);

    assert_eq!(final_state,
               ExecutionState {
                   start_instr: None,
                   cells: vec![2],
                   cell_ptr: 0,
                   outputs: vec![],
               });
}

#[test]
fn set_wraps() {
    let instrs = [SetCell { amount: -1, offset: 0, position: None }];
    let final_state = execute(&instrs, MAX_STEPS);

    assert_eq!(final_state,
               ExecutionState {
                   start_instr: None,
                   cells: vec![-1],
                   cell_ptr: 0,
                   outputs: vec![],
               });
}

#[test]
fn decrement_executed() {
    let instrs = parse("-").unwrap();
    let final_state = execute(&instrs, MAX_STEPS);

    assert_eq!(final_state,
               ExecutionState {
                   start_instr: None,
                   cells: vec![-1],
                   cell_ptr: 0,
                   outputs: vec![],
               });
}

#[test]
fn increment_wraps() {
    let instrs = [Increment { amount: -1, offset: 0, position: None },
                  Increment { amount: 1, offset: 0, position: None }];
    let final_state = execute(&instrs, MAX_STEPS);

    assert_eq!(final_state,
               ExecutionState {
                   start_instr: None,
                   cells: vec![0],
                   cell_ptr: 0,
                   outputs: vec![],
               });
}

#[test]
fn ptr_increment_executed() {
    let instrs = parse(">").unwrap();
    let final_state = execute(&instrs, MAX_STEPS);

    assert_eq!(final_state,
               ExecutionState {
                   start_instr: None,
                   cells: vec![0, 0],
                   cell_ptr: 1,
                   outputs: vec![],
               });
}

#[test]
fn ptr_out_of_range() {
    let instrs = parse("<").unwrap();
    let final_state = execute(&instrs, MAX_STEPS);

    assert_eq!(final_state,
               ExecutionState {
                   start_instr: Some(&instrs[0]),
                   cells: vec![0],
                   cell_ptr: 0,
                   outputs: vec![],
               });
}

#[test]
fn limit_to_steps_specified() {
    let instrs = parse("++++").unwrap();
    let final_state = execute(&instrs, 2);

    assert_eq!(final_state,
               ExecutionState {
                   start_instr: Some(&instrs[2]),
                   cells: vec![2],
                   cell_ptr: 0,
                   outputs: vec![],
               });
}

#[test]
fn write_executed() {
    let instrs = parse("+.").unwrap();
    let final_state = execute(&instrs, MAX_STEPS);

    assert_eq!(final_state,
               ExecutionState {
                   start_instr: None,
                   cells: vec![1],
                   cell_ptr: 0,
                   outputs: vec![1],
               });
}

#[test]
fn loop_executed() {
    let instrs = parse("++[-]").unwrap();
    let final_state = execute(&instrs, MAX_STEPS);

    assert_eq!(final_state,
               ExecutionState {
                   start_instr: None,
                   cells: vec![0],
                   cell_ptr: 0,
                   outputs: vec![],
               });
}

// If we can't execute all of a loop body, we should still return a
// position within the loop.
#[test]
fn partially_execute_up_to_runtime_value() {
    let instrs = parse("+[[,]]").unwrap();
    let final_state = execute(&instrs, 10);

    // Get the inner read instruction
    let start_instr = match instrs[1] {
        Loop { ref body, .. } => {
            match body[0] {
                Loop { body: ref body2, .. } => {
                    &body2[0]
                }
                _ => unreachable!()
            }
        }
        _ => unreachable!()
    };
    assert!(matches!(*start_instr, Read { .. }));

    assert_eq!(final_state,
               ExecutionState {
                   start_instr: Some(start_instr),
                   cells: vec![1],
                   cell_ptr: 0,
                   outputs: vec![],
               });
}

/// Ensure that we have the correct InstrPosition when we finish
/// executing a top-level loop.
#[test]
fn partially_execute_complete_toplevel_loop() {
    let instrs = parse("+[-],").unwrap();
    let final_state = execute(&instrs, 10);

    assert_eq!(final_state,
               ExecutionState {
                   start_instr: Some(&instrs[2]),
                   cells: vec![0],
                   cell_ptr: 0,
                   outputs: vec![],
               });
}

#[test]
fn partially_execute_up_to_step_limit() {
    let instrs = parse("+[++++]").unwrap();
    let final_state = execute(&instrs, 3);

    let start_instr = match instrs[1] {
        Loop { ref body, .. } => {
            &body[2]
        }
        _ => unreachable!()
    };

    assert_eq!(final_state,
               ExecutionState {
                   start_instr: Some(start_instr),
                   cells: vec![3],
                   cell_ptr: 0,
                   outputs: vec![],
               });
}

#[test]
fn loop_up_to_step_limit() {
    let instrs = parse("++[-]").unwrap();
    // Assuming we take one step to enter the loop, we will execute
    // the loop body once.
    let final_state = execute(&instrs, 4);

    assert_eq!(final_state,
               ExecutionState {
                   start_instr: Some(&instrs[2]),
                   cells: vec![1],
                   cell_ptr: 0,
                   outputs: vec![],
               });
}

#[test]
fn loop_with_read_body() {
    // We can't execute the whole loop, so our start instruction
    // should be the read.
    let instrs = parse("+[+,]").unwrap();
    let final_state = execute(&instrs, 4);

    // Get the inner read instruction
    let start_instr = match instrs[1] {
        Loop { ref body, .. } => {
            &body[1]
        }
        _ => unreachable!()
    };
    assert!(matches!(*start_instr, Read { .. }));

    assert_eq!(final_state,
               ExecutionState {
                   start_instr: Some(start_instr),
                   cells: vec![2],
                   cell_ptr: 0,
                   outputs: vec![],
               });
}

#[test]
fn up_to_infinite_loop_executed() {
    let instrs = parse("++[]").unwrap();
    let final_state = execute(&instrs, 20);

    assert_eq!(final_state,
               ExecutionState {
                   start_instr: Some(&instrs[2]),
                   cells: vec![2],
                   cell_ptr: 0,
                   outputs: vec![],
               });
}

#[test]
fn up_to_nonempty_infinite_loop() {
    let instrs = parse("+[+]").unwrap();
    let final_state = execute(&instrs, 20);

    assert_eq!(final_state,
               ExecutionState {
                   start_instr: Some(&instrs[1]),
                   cells: vec![11],
                   cell_ptr: 0,
                   outputs: vec![],
               });
}

#[test]
fn quickcheck_cell_ptr_in_bounds() {
    fn cell_ptr_in_bounds(instrs: Prog) -> bool {
        let instrs = instrs.0;
        let state = execute(&instrs, 100);
        (state.cell_ptr >= 0) && (state.cell_ptr < state.cells.len() as isize)
    }
    quickcheck(cell_ptr_in_bounds as fn(Prog) -> bool);
}

#[test]
fn arithmetic_error_nested_loops() {
    // Regression test, based on a snippet from
    // mandlebrot.bf. Previously, if the first element in a loop was
    // another loop, we had arithmetic overflow.
    let instrs = parse("+[[>>>>>>>>>]+>>>>>>>>>-]").unwrap();
    execute(&instrs, MAX_STEPS);
}