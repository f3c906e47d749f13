use std::collections::HashMap;

use quickcheck::{quickcheck, Arbitrary, Gen, TestResult};
use rand::{Rng, RngCore};

use bfc::bfir::AstNode;
use bfc::bfir::AstNode::{Increment, Loop, MultiplyMove, PointerIncrement, Read, SetCell, Write};
use bfc::bfir::Position;
use bfc::execution::Outcome::{Completed, OutOfSteps, ReachedRuntimeValue, RuntimeError};
use bfc::execution::{execute_with_state, ExecutionState};
use bfc::peephole::{
    annotate_known_zero, combine_increments, combine_ptr_increments, combine_set_and_increments, extract_multiply,
    optimize, remove_dead_loops, remove_pure_code, remove_read_clobber, remove_redundant_sets, sort_by_offset,
    zeroing_loops,
};

/// A program for property tests.
#[derive(Clone, Debug)]
struct Prog(Vec<AstNode>);

impl Arbitrary for Prog {
    fn arbitrary<G: Gen>(g: &mut G) -> Prog {
        let size = {
            let s = g.size();
            g.gen_range(0, s)
        };
        Prog((0..size).map(|_| arbitrary_instr(g, 5)).collect())
    }
}

// A separate function, so that the depth of loops can be bounded.
fn arbitrary_instr<G: Gen>(g: &mut G, max_depth: usize) -> AstNode {
    let modulus = if max_depth == 0 { 8 } else { 9 };

    // If max_depth is zero, don't create loops.
    match g.next_u32() % modulus {
        0 => Increment {
            amount: Arbitrary::arbitrary(g),
            offset: 0,
            position: Some(Position { start: 0, end: 0 }),
        },
        1 => PointerIncrement {
            amount: Arbitrary::arbitrary(g),
            position: Some(Position { start: 0, end: 0 }),
        },
        2 => SetCell {
            amount: Arbitrary::arbitrary(g),
            offset: 0,
            position: Some(Position { start: 0, end: 0 }),
        },
        3 => Read {
            position: Some(Position { start: 0, end: 0 }),
        },
        4 => Write {
            position: Some(Position { start: 0, end: 0 }),
        },
        5 => {
            let mut changes = HashMap::new();
            changes.insert(1, -1);
            MultiplyMove {
                changes,
                position: Some(Position { start: 0, end: 0 }),
            }
        }
        6 => {
            let mut changes = HashMap::new();
            changes.insert(1, 2);
            changes.insert(4, 10);
            MultiplyMove {
                changes,
                position: Some(Position { start: 0, end: 0 }),
            }
        }
        7 => {
            // A multiply by 2 loop that accesses a previous
            // cell. Quickcheck doesn't seem to generate these by
            // chance, but they often expose interesting bugs.
            let body = vec![
                Increment {
                    amount: -1,
                    offset: 0,
                    position: None,
                },
                PointerIncrement {
                    amount: -1,
                    position: None,
                },
                Increment {
                    amount: 2,
                    offset: 0,
                    position: None,
                },
                PointerIncrement {
                    amount: 1,
                    position: None,
                },
            ];
            Loop {
                body,
                position: None,
            }
        }
        8 => {
            assert!(max_depth > 0);
            let loop_length = g.next_u32() % 10;
            let mut body: Vec<_> = vec![];
            for _ in 0..loop_length {
                body.push(arbitrary_instr(g, max_depth - 1));
            }
            Loop {
                body,
                position: Some(Position { start: 0, end: 0 }),
            }
        }
        _ => unreachable!(),
    }
}


fn transform_is_sound<F>(
    instrs: Vec<AstNode>,
    transform: F,
    check_cells: bool,
    dummy_read_value: Option<i8>,
) -> TestResult
where
    F: Fn(Vec<AstNode>) -> Vec<AstNode>,
{
    let max_steps = 1000;

    // First, we execute the program given.
    let mut state = ExecutionState::initial(&instrs[..]);
    let result = execute_with_state(&instrs[..], &mut state, max_steps, dummy_read_value);

    // Optimisations may change malformed programs to well-formed
    // programs, so we ignore programs that don't terminate nicely.
    match result {
        RuntimeError | OutOfSteps => return TestResult::discard(),
        _ => (),
    }

    // Next, we execute the program after transformation.
    let optimised_instrs = transform(instrs.clone());
    // Deliberately start our state from the original instrs, so we
    // get the same number of cells. Otherwise we could get in messy
    // situations where a dead loop that makes us think we use
    // MAX_CELLS so state2 has fewer cells.
    let mut state2 = ExecutionState::initial(&instrs[..]);
    let result2 = execute_with_state(
        &optimised_instrs[..],
        &mut state2,
        max_steps,
        dummy_read_value,
    );

    // Compare the outcomes: they should be the same.
    match (result, result2) {
        // If the first result completed, the second should have
        // completed too. We allow them to take a different amount of
        // steps.
        (Completed(_), Completed(_)) => (),
        (ReachedRuntimeValue, ReachedRuntimeValue) => (),
        // Any other situation means that the first program terminated
        // but the optimised program did not.
        (_, _) => {
            println!("Optimised program did not terminate properly!");
            return TestResult::failed();
        }
    }

    // Likewise we should have written the same outputs.
    if state.outputs != state2.outputs {
        println!(
            "Different outputs! Original outputs: {:?} Optimised: {:?}",
            state.outputs, state2.outputs
        );
        return TestResult::failed();
    }

    // If requested, compare that the cells at the end are the same
    // too. This is true of most, but not all, of our optimisations.
    if check_cells && state.cells != state2.cells {
        println!(
            "Different cell states! Optimised state: {:?} Optimised: {:?}",
            state.cells, state2.cells
        );
        return TestResult::failed();
    }

    TestResult::passed()
}

#[test]
fn soundness_tests_combine_increments_is_sound() {
    fn is_sound(instrs: Prog) -> TestResult {
        let instrs = instrs.0;
        transform_is_sound(instrs, combine_increments, true, None)
    }
    quickcheck(is_sound as fn(Prog) -> TestResult)
}

#[test]
fn soundness_tests_combine_ptr_increments_is_sound() {
    fn is_sound(instrs: Prog) -> TestResult {
        let instrs = instrs.0;
        transform_is_sound(instrs, combine_ptr_increments, true, None)
    }
    quickcheck(is_sound as fn(Prog) -> TestResult)
}

#[test]
fn soundness_tests_annotate_known_zero_is_sound() {
    fn is_sound(instrs: Prog) -> TestResult {
        let instrs = instrs.0;
        transform_is_sound(instrs, annotate_known_zero, true, None)
    }
    quickcheck(is_sound as fn(Prog) -> TestResult)
}

#[test]
fn soundness_tests_extract_multiply_is_sound() {
    fn is_sound(instrs: Prog) -> TestResult {
        let instrs = instrs.0;
        transform_is_sound(instrs, extract_multiply, true, None)
    }
    quickcheck(is_sound as fn(Prog) -> TestResult)
}

#[test]
fn soundness_tests_simplify_loops_is_sound() {
    fn is_sound(instrs: Prog) -> TestResult {
        let instrs = instrs.0;
        transform_is_sound(instrs, zeroing_loops, true, None)
    }
    quickcheck(is_sound as fn(Prog) -> TestResult)
}

#[test]
fn soundness_tests_combine_set_and_increments_is_sound() {
    fn is_sound(instrs: Prog) -> TestResult {
        let instrs = instrs.0;
        transform_is_sound(instrs, combine_set_and_increments, true, None)
    }
    quickcheck(is_sound as fn(Prog) -> TestResult)
}

#[test]
fn soundness_tests_remove_dead_loops_is_sound() {
    fn is_sound(instrs: Prog) -> TestResult {
        let instrs = instrs.0;
        transform_is_sound(instrs, remove_dead_loops, true, None)
    }
    quickcheck(is_sound as fn(Prog) -> TestResult)
}

#[test]
fn soundness_tests_remove_redundant_sets_is_sound() {
    fn is_sound(instrs: Prog) -> TestResult {
        let instrs = instrs.0;
        transform_is_sound(instrs, remove_redundant_sets, true, None)
    }
    quickcheck(is_sound as fn(Prog) -> TestResult)
}

#[test]
fn soundness_tests_combine_before_read_is_sound() {
    fn is_sound(instrs: Prog, read_value: Option<i8>) -> TestResult {
        let instrs = instrs.0;
        // remove_read_clobber can change the value of cells when we
        // reach a runtime value. Conside `+,` to `,` -- the `,`
        // overwrites the cell, but when we reach the runtime value
        // the cells are different.
        transform_is_sound(instrs, remove_read_clobber, false, read_value)
    }
    quickcheck(is_sound as fn(Prog, Option<i8>) -> TestResult)
}

#[test]
fn soundness_tests_remove_pure_code_is_sound() {
    fn is_sound(instrs: Prog) -> TestResult {
        let instrs = instrs.0;
        // We can't compare cells after this pass. Consider `.+` to
        // `.` -- the outputs are the same, but the cell state is
        // different at termination.
        transform_is_sound(instrs, |instrs| remove_pure_code(instrs).0, false, None)
    }
    quickcheck(is_sound as fn(Prog) -> TestResult)
}

#[test]
fn soundness_tests_sort_by_offset_is_sound() {
    fn is_sound(instrs: Prog) -> TestResult {
        let instrs = instrs.0;
        transform_is_sound(instrs, sort_by_offset, true, None)
    }
    quickcheck(is_sound as fn(Prog) -> TestResult)
}

#[test]
fn soundness_tests_test_overall_optimize_is_sound() {
    fn optimize_ignore_warnings(instrs: Vec<AstNode>) -> Vec<AstNode> {
        optimize(instrs, &None).0
    }

    fn optimizations_sound_together(instrs: Prog, read_value: Option<i8>) -> TestResult {
        let instrs = instrs.0;
        // Since sort_by_offset and remove_read_clobber can change
        // cell values at termination, the overall optimize can change
        // cells values at termination.
        transform_is_sound(instrs, optimize_ignore_warnings, false, read_value)
    }

    quickcheck(optimizations_sound_together as fn(Prog, Option<i8>) -> TestResult);
}
