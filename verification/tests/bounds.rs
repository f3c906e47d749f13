use std::collections::HashMap;

use quickcheck::{quickcheck, Arbitrary, Gen};
use rand::{Rng, RngCore};

use bfc::bfir::AstNode::{Increment, Loop, MultiplyMove, PointerIncrement, Read, SetCell, Write};
use bfc::bfir::{parse, AstNode, Position};
use bfc::bounds::{highest_cell_index, MAX_CELL_INDEX};

/// A program for property tests.
#[derive(Clone, Debug)]
struct Prog(Vec<AstNode>);

impl Arbitrary for Prog {
    fn arbitrary<G: Gen>(g: &mut G) -> Prog {
        let size = {
            let s = g.size();
            g.gen_range(0, s)
        };
        Prog((0..size).map(|_| arbitrary_instr(g, 5)).collect())
    }
}

// A separate function, so that the depth of loops can be bounded.
fn arbitrary_instr<G: Gen>(g: &mut G, max_depth: usize) -> AstNode {
    let modulus = if max_depth == 0 { 8 } else { 9 };

    // If max_depth is zero, don't create loops.
    match g.next_u32() % modulus {
        0 => Increment {
            amount: Arbitrary::arbitrary(g),
            offset: 0,
            position: Some(Position { start: 0, end: 0 }),
        },
        1 => PointerIncrement {
            amount: Arbitrary::arbitrary(g),
            position: Some(Position { start: 0, end: 0 }),
        },
        2 => SetCell {
            amount: Arbitrary::arbitrary(g),
            offset: 0,
            position: Some(Position { start: 0, end: 0 }),
        },
        3 => Read {
            position: Some(Position { start: 0, end: 0 }),
        },
        4 => Write {
            position: Some(Position { start: 0, end: 0 }),
        },
        5 => {
            let mut changes = HashMap::new();
            changes.insert(1, -1);
            MultiplyMove {
                changes,
                position: Some(Position { start: 0, end: 0 }),
            }
        }
        6 => {
            let mut changes = HashMap::new();
            changes.insert(1, 2);
            changes.insert(4, 10);
            MultiplyMove {
                changes,
                position: Some(Position { start: 0, end: 0 }),
            }
        }
        7 => {
            // A multiply by 2 loop that accesses a previous
            // cell. Quickcheck doesn't seem to generate these by
            // chance, but they often expose interesting bugs.
            let body = vec![
                Increment {
                    amount: -1,
                    offset: 0,
                    position: None,
                },
                PointerIncrement {
                    amount: -1,
                    position: None,
                },
                Increment {
                    amount: 2,
                    offset: 0,
                    position: None,
                },
                PointerIncrement {
                    amount: 1,
                    position: None,
                },
            ];
            Loop {
                body,
                position: None,
            }
        }
        8 => {
            assert!(max_depth > 0);
            let loop_length = g.next_u32() % 10;
            let mut body: Vec<_> = vec![];
            for _ in 0..loop_length {
                body.push(arbitrary_instr(g, max_depth - 1));
            }
            Loop {
                body,
                position: Some(Position { start: 0, end: 0 }),
            }
        }
        _ => unreachable!(),
    }
}



#[test]
fn one_cell_bounds() {
    let instrs = parse("+-.,").unwrap();
    assert_eq!(highest_cell_index(&instrs), 0);
}

#[test]
fn ptr_increment_bounds() {
    let instrs = parse(">").unwrap();
    assert_eq!(highest_cell_index(&instrs), 1);
}

#[test]
fn ptr_increment_sequence_bounds() {
    let instrs = parse(">>.<").unwrap();
    assert_eq!(highest_cell_index(&instrs), 2);

    let instrs = parse(">><>>").unwrap();
    assert_eq!(highest_cell_index(&instrs), 3);
}

#[test]
fn multiple_ptr_increment_bounds() {
    let instrs = vec![PointerIncrement {
        amount: 2,
        position: Some(Position { start: 0, end: 0 }),
    }];
    assert_eq!(highest_cell_index(&instrs), 2);
}

#[test]
fn multiply_move_bounds() {
    let mut dest_cells = HashMap::new();
    dest_cells.insert(1, 3);
    dest_cells.insert(4, 1);
    let instrs = vec![
        MultiplyMove {
            changes: dest_cells,
            position: Some(Position { start: 0, end: 0 }),
        },
        // Multiply move should have increased the highest cell
        // reached, but not the current cell. This instruction
        // should not affect the output:
        PointerIncrement {
            amount: 2,
            position: Some(Position { start: 1, end: 1 }),
        },
    ];

    assert_eq!(highest_cell_index(&instrs), 4);
}

/// Multiply move uses offsets to the current pointer value.
/// Verify we add to the current pointer value.
#[test]
fn multiply_move_bounds_are_relative() {
    let mut dest_cells = HashMap::new();
    dest_cells.insert(1, 5);
    let instrs = vec![
        // Move to cell #2.
        PointerIncrement {
            amount: 2,
            position: Some(Position { start: 0, end: 0 }),
        },
        // Move (with multiply) to cell #3 (#2 offset 1).
        MultiplyMove {
            changes: dest_cells,
            position: Some(Position { start: 0, end: 0 }),
        },
    ];

    assert_eq!(highest_cell_index(&instrs), 3);
}

#[test]
fn multiply_move_backwards_bounds() {
    let mut dest_cells = HashMap::new();
    dest_cells.insert(-1, 2);
    let instrs = vec![
        PointerIncrement {
            amount: 1,
            position: Some(Position { start: 0, end: 0 }),
        },
        MultiplyMove {
            changes: dest_cells,
            position: Some(Position { start: 0, end: 0 }),
        },
    ];

    assert_eq!(highest_cell_index(&instrs), 1);
}

#[test]
fn unbounded_movement() {
    let instrs = parse("[>]").unwrap();
    assert_eq!(highest_cell_index(&instrs), MAX_CELL_INDEX);

    let instrs = parse(">[<]").unwrap();
    assert_eq!(highest_cell_index(&instrs), 1);
}

#[test]
fn excessive_bounds_truncated() {
    let instrs = vec![PointerIncrement {
        amount: MAX_CELL_INDEX as isize + 1,
        position: Some(Position { start: 0, end: 0 }),
    }];
    assert_eq!(highest_cell_index(&instrs), MAX_CELL_INDEX);
}

#[test]
fn loop_with_no_net_movement() {
    // Max cell index 1, final cell position 0.
    let instrs = parse("[->+<]").unwrap();
    assert_eq!(highest_cell_index(&instrs), 1);

    // Max cell index 1, final cell position 1.
    let instrs = parse("[->+<]>").unwrap();
    assert_eq!(highest_cell_index(&instrs), 1);

    // Max cell index 2, final cell position 2.
    let instrs = parse("[->+<]>>").unwrap();
    assert_eq!(highest_cell_index(&instrs), 2);
}

#[test]
fn quickcheck_highest_cell_index_in_bounds() {
    fn highest_cell_index_in_bounds(instrs: Prog) -> bool {
        let instrs = instrs.0;
        let index = highest_cell_index(&instrs);
        index <= MAX_CELL_INDEX
    }
    quickcheck(highest_cell_index_in_bounds as fn(Prog) -> bool);
}

#[test]
fn increment_offset_bounds() {
    let instrs = [Increment {
        amount: 2,
        offset: 5,
        position: Some(Position { start: 0, end: 0 }),
    }];
    assert_eq!(highest_cell_index(&instrs), 5);
}

#[test]
fn set_offset_bounds() {
    let instrs = [
        SetCell {
            amount: 2,
            offset: 10,
            position: Some(Position { start: 0, end: 0 }),
        },
        SetCell {
            amount: 2,
            offset: 11,
            position: Some(Position { start: 0, end: 0 }),
        },
    ];
    assert_eq!(highest_cell_index(&instrs), 11);
}
