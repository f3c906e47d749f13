use bfc::bfir::{parse, Position};
use bfc::execution::{execute, execute_with_warning, MAX_STEPS};

#[test]
fn warning_names_the_instruction_off_the_tape() {
    let instrs = parse("+.<+").unwrap();
    let (state, warning) = execute_with_warning(&instrs, MAX_STEPS);
    let warning = warning.expect("a runtime error warns");
    assert_eq!(warning.position, Some(Position { start: 2, end: 2 }));
    assert_eq!(warning.message, "This instruction accesses a cell outside the tape.");
    assert_eq!(state.start_instr, Some(&instrs[2]));
    assert_eq!(state.outputs, vec![1]);
}

#[test]
fn no_warning_for_a_program_that_completes() {
    let instrs = parse("++[->+<]>.").unwrap();
    let (state, warning) = execute_with_warning(&instrs, MAX_STEPS);
    assert_eq!(warning, None);
    assert_eq!(state, execute(&instrs, MAX_STEPS));
    assert_eq!(state.outputs, vec![2]);
}

#[test]
fn no_warning_when_stopped_at_a_read() {
    let instrs = parse("+.,<").unwrap();
    let (state, warning) = execute_with_warning(&instrs, MAX_STEPS);
    assert_eq!(warning, None);
    assert_eq!(state.start_instr, Some(&instrs[2]));
}

#[test]
fn parse_keeps_only_commands() {
    assert_eq!(parse("foo! ").unwrap(), vec![]);
    let with_comments = parse("a+b[c-d]e.").unwrap();
    let bare = parse("+[-].").unwrap();
    assert_eq!(with_comments.len(), bare.len());
    assert_eq!(with_comments.len(), 3);
}

#[test]
fn outputs_only_grow() {
    let instrs = parse("+.+.+.").unwrap();
    let (short, _) = execute_with_warning(&instrs, 3);
    let (long, _) = execute_with_warning(&instrs, MAX_STEPS);
    assert_eq!(short.outputs, vec![1]);
    assert_eq!(long.outputs, vec![1, 2, 3]);
    assert_eq!(&long.outputs[..short.outputs.len()], &short.outputs[..]);
}
