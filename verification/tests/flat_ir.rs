use bfc::ir::{parse, Instruction};
use bfc::optimize::{annotate_known_zero, combine_before_read, combine_set_and_increments, optimize, remove_pure_code};
use bfc::prototype;

#[test]
fn flat_parse_reports_unmatched_brackets() {
    let error = parse("+]").unwrap_err();
    assert_eq!(error.message, "This ] has no matching [");
    assert!(parse("[").is_err());
}

#[test]
fn flat_parse_builds_loops() {
    assert_eq!(
        parse("+[-.]").unwrap(),
        vec![
            Instruction::Increment(1),
            Instruction::Loop(vec![Instruction::Increment(-1), Instruction::Write]),
        ]
    );
}

#[test]
fn first_parser_ignores_unmatched_brackets() {
    assert_eq!(prototype::parse("+]["), vec![Instruction::Increment(1)]);
    assert_eq!(prototype::parse("[+]"), vec![Instruction::Loop(vec![Instruction::Increment(1)])]);
}

#[test]
fn first_optimiser() {
    let result = prototype::optimize(prototype::parse("++>>[-][+]"));
    assert_eq!(
        result,
        vec![Instruction::Increment(2), Instruction::PointerIncrement(2), Instruction::SetCell(0)]
    );
}

#[test]
fn first_optimiser_only_top_level_dead_loops() {
    let result = prototype::remove_dead_loops(vec![Instruction::Loop(vec![
        Instruction::SetCell(0),
        Instruction::Loop(vec![]),
    ])]);
    assert_eq!(result, vec![Instruction::Loop(vec![Instruction::SetCell(0), Instruction::Loop(vec![])])]);
}

#[test]
fn flat_before_read() {
    let result = combine_before_read(vec![Instruction::SetCell(3), Instruction::Read, Instruction::Increment(1), Instruction::Read]);
    assert_eq!(result, vec![Instruction::Read, Instruction::Read]);
}

#[test]
fn flat_set_and_increment_wrap() {
    let result = combine_set_and_increments(vec![Instruction::SetCell(i32::MAX), Instruction::Increment(1)]);
    assert_eq!(result, vec![Instruction::SetCell(i32::MIN)]);
}

#[test]
fn flat_annotate_after_every_loop() {
    let result = annotate_known_zero(parse("[[]]").unwrap());
    assert_eq!(
        result,
        vec![
            Instruction::SetCell(0),
            Instruction::Loop(vec![Instruction::Loop(vec![]), Instruction::SetCell(0)]),
            Instruction::SetCell(0),
        ]
    );
}

#[test]
fn flat_pure_code_removed() {
    let result = remove_pure_code(vec![Instruction::Write, Instruction::Increment(1), Instruction::PointerIncrement(2)]);
    assert_eq!(result, vec![Instruction::Write]);
}

#[test]
fn flat_optimise_example() {
    assert_eq!(
        optimize(parse("+++[-]>,.").unwrap()),
        vec![Instruction::PointerIncrement(1), Instruction::Read, Instruction::Write]
    );
}

fn count_instructions(instrs: &[Instruction]) -> usize {
    instrs
        .iter()
        .map(|instr| match instr {
            Instruction::Loop(body) => 1 + count_instructions(body),
            _ => 1,
        })
        .sum()
}

#[test]
fn flat_optimised_program_is_no_bigger() {
    for source in ["+[-]+[>+<-]", "[[-]]", ",[.,]", "+>+<[>]", "[-][-][-]", "+[+[+[-]]]", "[]"] {
        let instrs = parse(source).unwrap();
        let optimised = optimize(instrs.clone());
        assert!(count_instructions(&optimised) <= count_instructions(&instrs), "{}", source);
    }
}

#[test]
fn flat_optimise_merges_pointer_moves_after_increments() {
    let once = optimize(vec![
        Instruction::Write,
        Instruction::Increment(1),
        Instruction::PointerIncrement(1),
        Instruction::PointerIncrement(-1),
        Instruction::Increment(1),
        Instruction::Write,
    ]);
    assert_eq!(
        once,
        vec![Instruction::Write, Instruction::Increment(1), Instruction::Increment(1), Instruction::Write]
    );
    assert_eq!(optimize(once), vec![Instruction::Write, Instruction::Increment(2), Instruction::Write]);
}
