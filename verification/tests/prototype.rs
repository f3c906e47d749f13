use bfc::ir::Instruction;
use bfc::optimize::{combine_increments, combine_ptr_increments, simplify_loops};
use bfc::prototype::{optimize, parse, remove_dead_loops};

#[test]
fn parse_increment() {
    assert_eq!(parse("+"), [Instruction::Increment(1)]);
    assert_eq!(parse("++"), [Instruction::Increment(1),
                            Instruction::Increment(1)]);
}

#[test]
fn parse_decrement() {
    assert_eq!(parse("-"), [Instruction::Increment(-1)]);
}

#[test]
fn parse_pointer_increment() {
    assert_eq!(parse(">"), [Instruction::PointerIncrement(1)]);
}

#[test]
fn parse_pointer_decrement() {
    assert_eq!(parse("<"), [Instruction::PointerIncrement(-1)]);
}

#[test]
fn parse_read() {
    assert_eq!(parse(","), [Instruction::Read]);
}

#[test]
fn parse_write() {
    assert_eq!(parse("."), [Instruction::Write]);
}

#[test]
fn parse_comment() {
    assert_eq!(parse("foo! "), []);
}

#[test]
fn optimize_combine_increments_flat() {
    let initial = parse("++");
    let expected = vec![Instruction::Increment(2)];
    assert_eq!(combine_increments(initial), expected);
}

#[test]
fn optimize_combine_increments_unrelated() {
    let initial = parse("+>+.");
    let expected = initial.clone();
    assert_eq!(combine_increments(initial), expected);
}

#[test]
fn optimize_combine_increments_remove_redundant() {
    let initial = parse("+-");
    assert_eq!(combine_increments(initial), vec![]);
}

#[test]
fn optimize_combine_ptr_increments_flat() {
    let initial = parse(">>");
    let expected = vec![Instruction::PointerIncrement(2)];
    assert_eq!(combine_ptr_increments(initial), expected);
}

#[test]
fn optimize_combine_ptr_increments_unrelated() {
    let initial = parse(">+>.");
    let expected = initial.clone();
    assert_eq!(combine_ptr_increments(initial), expected);
}

#[test]
fn optimize_combine_ptr_increments_nested() {
    let initial = parse("[>>]");
    let expected = vec![Instruction::Loop(vec![
        Instruction::PointerIncrement(2)])];
    assert_eq!(combine_ptr_increments(initial), expected);
}

#[test]
fn optimize_combine_ptr_increments_remove_redundant() {
    let initial = parse("><");
    assert_eq!(combine_ptr_increments(initial), vec![]);
}

#[test]
fn optimize_simplify_zeroing_loop() {
    let initial = parse("[-]");
    let expected = vec![Instruction::SetCell(0)];
    assert_eq!(simplify_loops(initial), expected);
}

#[test]
fn optimize_simplify_nested_zeroing_loop() {
    let initial = parse("[[-]]");
    let expected = vec![Instruction::Loop(vec![Instruction::SetCell(0)])];
    assert_eq!(simplify_loops(initial), expected);
}

#[test]
fn optimize_dont_simplify_multiple_decrement_loop() {
    // A user who wrote this probably meant '[-]'. However, if the
    // current cell has the value 3, we would actually wrap around
    // (although BF does not specify this).
    let initial = parse("[--]");
    assert_eq!(simplify_loops(initial.clone()), initial);
}

#[test]
fn optimize_should_remove_dead_loops() {
    let initial = vec![
        Instruction::SetCell(0),
        Instruction::Loop(vec![]),
        Instruction::Loop(vec![])];
    let expected = vec![Instruction::SetCell(0)];
    assert_eq!(remove_dead_loops(initial), expected);
}

