use std::collections::HashMap;

use bfc::bfir::AstNode::{Increment, Loop, MultiplyMove, PointerIncrement, Read, SetCell, Write};
use bfc::bfir::{parse, AstNode};
use bfc::execution::{execute_with_state, ExecutionState, Outcome};
use bfc::peephole::{
    annotate_known_zero, combine_increments, combine_ptr_increments, combine_set_and_increments, extract_multiply, optimize, remove_dead_loops, remove_read_clobber,
    remove_redundant_sets, sort_by_offset,
};

/// Run `instrs` on the tape that `tape_for` reaches, zeroed.
fn run_on(instrs: &[AstNode], tape_for: &[AstNode], steps: u64, read: Option<i8>) -> (Outcome, Vec<i8>, Vec<i8>) {
    let mut state = ExecutionState::initial(tape_for);
    let outcome = execute_with_state(instrs, &mut state, steps, read);
    (outcome, state.cells.clone(), state.outputs.clone())
}

fn completed(outcome: Outcome) -> bool {
    matches!(outcome, Outcome::Completed(_))
}

#[test]
fn dead_loop_removal_keeps_behaviour() {
    let instrs = vec![
        Increment { amount: 3, offset: 0, position: None },
        SetCell { amount: 0, offset: 0, position: None },
        PointerIncrement { amount: 1, position: None },
        PointerIncrement { amount: -1, position: None },
        Loop { body: vec![Write { position: None }], position: None },
        Write { position: None },
    ];
    let optimised = remove_dead_loops(instrs.clone());
    assert_eq!(optimised.len(), instrs.len() - 1);
    let before = run_on(&instrs, &instrs, 100, None);
    let after = run_on(&optimised, &instrs, 100, None);
    assert!(completed(before.0) && completed(after.0));
    assert_eq!(before.1, after.1);
    assert_eq!(before.2, vec![0]);
    assert_eq!(before.2, after.2);
}

#[test]
fn redundant_set_removal_keeps_behaviour() {
    let instrs = parse("+++[-]").unwrap();
    let mut with_set = instrs.clone();
    with_set.push(SetCell { amount: 0, offset: 0, position: None });
    with_set.push(Write { position: None });
    let optimised = remove_redundant_sets(with_set.clone());
    assert_eq!(optimised.len(), with_set.len() - 1);
    let before = run_on(&with_set, &with_set, 100, None);
    let after = run_on(&optimised, &with_set, 100, None);
    assert!(completed(before.0) && completed(after.0));
    assert_eq!(before.1, after.1);
    assert_eq!(before.2, after.2);
}

#[test]
fn extracted_multiply_gives_the_same_outputs() {
    let instrs = parse("+++[->++<]>.").unwrap();
    let optimised = extract_multiply(instrs.clone());
    let mut expected_changes = HashMap::new();
    expected_changes.insert(1, 2);
    assert!(matches!(&optimised[3], MultiplyMove { changes, .. } if *changes == expected_changes));
    let before = run_on(&instrs, &instrs, 1000, None);
    let after = run_on(&optimised, &instrs, 1000, None);
    assert!(completed(before.0) && completed(after.0));
    assert_eq!(before.2, vec![6]);
    assert_eq!(before.1, after.1);
    assert_eq!(before.2, after.2);
}

#[test]
fn extracted_multiply_wraps_like_the_loop() {
    // 255 passes of the loop add 255 * 3 to the next cell.
    let instrs = vec![
        SetCell { amount: -1, offset: 0, position: None },
        Loop {
            body: parse("->+++<").unwrap(),
            position: None,
        },
        PointerIncrement { amount: 1, position: None },
        Write { position: None },
    ];
    let optimised = extract_multiply(instrs.clone());
    let before = run_on(&instrs, &instrs, 100_000, None);
    let after = run_on(&optimised, &instrs, 100_000, None);
    assert!(completed(before.0) && completed(after.0));
    assert_eq!(before.2, vec![(255i32 * 3) as i8]);
    assert_eq!(before.2, after.2);
    assert_eq!(before.1, after.1);
}

#[test]
fn sorted_code_gives_the_same_state() {
    let instrs = parse("+>++>+++<<-.>.>.<").unwrap();
    let optimised = sort_by_offset(instrs.clone());
    let before = run_on(&instrs, &instrs, 100, None);
    let after = run_on(&optimised, &instrs, 100, None);
    assert!(completed(before.0) && completed(after.0));
    assert_eq!(before.1, after.1);
    assert_eq!(before.2, vec![0, 2, 3]);
    assert_eq!(before.2, after.2);
}

#[test]
fn annotated_code_gives_the_same_state() {
    let instrs = parse("++[->+<]>[-<+>]<.").unwrap();
    let optimised = annotate_known_zero(instrs.clone());
    assert!(optimised.len() > instrs.len());
    let before = run_on(&instrs, &instrs, 1000, None);
    let after = run_on(&optimised, &instrs, 2001, None);
    assert!(completed(before.0) && completed(after.0));
    assert_eq!(before.1, after.1);
    assert_eq!(before.2, vec![2]);
    assert_eq!(before.2, after.2);
}

#[test]
fn clobbered_change_dropped_before_read() {
    let instrs = vec![
        Increment { amount: 7, offset: 0, position: None },
        PointerIncrement { amount: 1, position: None },
        PointerIncrement { amount: -1, position: None },
        Read { position: None },
        Write { position: None },
    ];
    let optimised = remove_read_clobber(instrs.clone());
    assert_eq!(optimised.len(), instrs.len() - 1);
    // With input the two agree entirely.
    let before = run_on(&instrs, &instrs, 100, Some(42));
    let after = run_on(&optimised, &instrs, 100, Some(42));
    assert!(completed(before.0) && completed(after.0));
    assert_eq!(before.1, after.1);
    assert_eq!(before.2, vec![42]);
    assert_eq!(before.2, after.2);
    // Without input both stop at the read, having written nothing; only
    // the dropped change differs.
    let before = run_on(&instrs, &instrs, 100, None);
    let after = run_on(&optimised, &instrs, 100, None);
    assert_eq!(before.0, Outcome::ReachedRuntimeValue);
    assert_eq!(after.0, Outcome::ReachedRuntimeValue);
    assert_eq!(before.2, after.2);
    assert_eq!(before.1[0], 7);
    assert_eq!(after.1[0], 0);
}

#[test]
fn optimised_program_writes_the_same() {
    let source = "++++[->++++<]>[->+>+<<]>>[-<<+>>]<<.>.>.";
    let instrs = parse(source).unwrap();
    let (optimised, _) = optimize(instrs.clone(), &None);
    let before = run_on(&instrs, &instrs, 10_000, None);
    let after = run_on(&optimised, &instrs, 10_000, None);
    assert!(completed(before.0) && completed(after.0));
    assert_eq!(before.2, vec![16, 16, 0]);
    assert_eq!(before.2, after.2);
}

#[test]
fn optimised_program_stops_at_the_same_read() {
    let instrs = parse("+++.>++,.").unwrap();
    let (optimised, _) = optimize(instrs.clone(), &None);
    let before = run_on(&instrs, &instrs, 1000, None);
    let after = run_on(&optimised, &instrs, 1000, None);
    assert_eq!(before.0, Outcome::ReachedRuntimeValue);
    assert_eq!(after.0, Outcome::ReachedRuntimeValue);
    assert_eq!(before.2, vec![3]);
    assert_eq!(before.2, after.2);
}

#[test]
fn parsed_increments_are_of_the_current_cell() {
    let instrs = parse("+[->-<]-").unwrap();
    fn all_current(instrs: &[AstNode]) -> bool {
        instrs.iter().all(|instr| match instr {
            Increment { offset, .. } => *offset == 0,
            Loop { body, .. } => all_current(body),
            _ => true,
        })
    }
    assert!(all_current(&instrs));
}

#[test]
fn pointer_increments_combined_twice_as_once() {
    let instrs = parse(">><<<+>>[<>>]").unwrap();
    let once = combine_ptr_increments(instrs);
    let twice = combine_ptr_increments(once.clone());
    assert_eq!(once, twice);
    assert_eq!(once.len(), 4);
}

#[test]
fn sorted_twice_as_once() {
    let instrs = parse("+>++<->>>+<[>+<<+>]").unwrap();
    let once = sort_by_offset(instrs);
    let twice = sort_by_offset(once.clone());
    assert_eq!(once, twice);
}

fn count_nodes(instrs: &[AstNode]) -> usize {
    instrs
        .iter()
        .map(|instr| match instr {
            Loop { body, .. } => 1 + count_nodes(body),
            _ => 1,
        })
        .sum()
}

#[test]
fn optimised_program_is_no_bigger() {
    for source in ["+[-]+[>+<-]", "[[-]]", ",[.,]", "+>+<[>]", "[-][-][-]", "+[+[+[-]]]"] {
        let instrs = parse(source).unwrap();
        let (optimised, _) = optimize(instrs.clone(), &None);
        assert!(count_nodes(&optimised) <= count_nodes(&instrs), "{}", source);
    }
}

#[test]
fn known_zero_marks_are_taken_out_again() {
    // Marking known zeros adds sets after both loops and at the start;
    // the optimiser takes them out again.
    let instrs = parse(",[-].[>].").unwrap();
    assert_eq!(count_nodes(&annotate_known_zero(instrs.clone())), count_nodes(&instrs) + 3);
    let (optimised, _) = optimize(instrs.clone(), &None);
    assert!(count_nodes(&optimised) <= count_nodes(&instrs));
}

#[test]
fn increments_meet_again_after_a_zero_run() {
    let instrs = vec![
        Increment { amount: 1, offset: 0, position: None },
        Increment { amount: 1, offset: 1, position: None },
        Increment { amount: -1, offset: 1, position: None },
        Increment { amount: 1, offset: 0, position: None },
    ];
    let once = combine_increments(instrs);
    assert_eq!(once, vec![Increment { amount: 2, offset: 0, position: None }]);
    assert_eq!(combine_increments(once.clone()), once);
}

#[test]
fn set_absorbs_every_increment_before_it() {
    let instrs = vec![
        Increment { amount: 1, offset: 0, position: None },
        Increment { amount: 1, offset: 0, position: None },
        SetCell { amount: 5, offset: 0, position: None },
    ];
    let once = combine_set_and_increments(instrs);
    assert_eq!(once, vec![SetCell { amount: 5, offset: 0, position: None }]);
    assert_eq!(combine_set_and_increments(once.clone()), once);
}

#[test]
fn sets_and_increments_between_sets_merge() {
    let instrs = vec![
        SetCell { amount: 1, offset: 2, position: None },
        Increment { amount: 4, offset: 2, position: None },
        SetCell { amount: 7, offset: 2, position: None },
        Increment { amount: 1, offset: 2, position: None },
        Write { position: None },
    ];
    let once = combine_set_and_increments(instrs);
    assert_eq!(once, vec![SetCell { amount: 8, offset: 2, position: None }, Write { position: None }]);
}

#[test]
fn loop_after_dead_loop_is_dead() {
    let instrs = vec![
        SetCell { amount: 0, offset: 0, position: None },
        Loop { body: vec![], position: None },
        Loop { body: vec![], position: None },
    ];
    let once = remove_dead_loops(instrs);
    assert_eq!(once, vec![SetCell { amount: 0, offset: 0, position: None }]);
    assert_eq!(remove_dead_loops(once.clone()), once);
}

#[test]
fn multiply_changes_recorded_at_target_cells() {
    let body = vec![
        Increment { amount: -1, offset: 0, position: None },
        Increment { amount: 2, offset: 1, position: None },
        Increment { amount: 3, offset: 3, position: None },
    ];
    let instrs = vec![
        SetCell { amount: 4, offset: 0, position: None },
        Loop { body, position: None },
        PointerIncrement { amount: 1, position: None },
        Write { position: None },
        PointerIncrement { amount: 2, position: None },
        Write { position: None },
    ];
    let optimised = extract_multiply(instrs.clone());
    let mut expected = HashMap::new();
    expected.insert(1, 2);
    expected.insert(3, 3);
    assert_eq!(optimised[1], MultiplyMove { changes: expected, position: None });
    let before = run_on(&instrs, &instrs, 100, None);
    let after = run_on(&optimised, &instrs, 100, None);
    assert!(completed(before.0) && completed(after.0));
    assert_eq!(before.2, vec![8, 12]);
    assert_eq!(before.1, after.1);
    assert_eq!(before.2, after.2);
}

#[test]
fn multiply_move_skipped_like_its_loop_on_a_zero_cell() {
    let instrs = parse("[<+>-].").unwrap();
    let optimised = extract_multiply(instrs.clone());
    assert!(matches!(optimised[0], MultiplyMove { .. }));
    let before = run_on(&instrs, &instrs, 100, None);
    let after = run_on(&optimised, &instrs, 100, None);
    assert!(completed(before.0) && completed(after.0));
    assert_eq!(before.2, vec![0]);
    assert_eq!(before.2, after.2);
}
