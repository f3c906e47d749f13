use quickcheck::{quickcheck, Arbitrary, Gen, TestResult};
use rand::{Rng, RngCore};

use bfc::ir::{parse, Instruction};
use bfc::optimize::{
    annotate_known_zero, combine_increments, combine_ptr_increments, combine_set_and_increments, optimize,
    remove_dead_loops, remove_redundant_sets, simplify_loops,
};

#[derive(Clone, Debug)]
struct Instr(Instruction);

impl Arbitrary for Instr {
    fn arbitrary<G: Gen>(g: &mut G) -> Instr {
        let i = g.next_u32();
        Instr(match i % 11 {
            0 => Instruction::Increment(Arbitrary::arbitrary(g)),
            1 => Instruction::PointerIncrement(Arbitrary::arbitrary(g)),
            2 => Instruction::SetCell(Arbitrary::arbitrary(g)),
            3 => Instruction::Read,
            4 => Instruction::Write,
            5 => Instruction::Loop(vec![]),
            6 => Instruction::Loop(vec![Instruction::Increment(Arbitrary::arbitrary(g))]),
            7 => Instruction::Loop(vec![Instruction::PointerIncrement(Arbitrary::arbitrary(g))]),
            8 => Instruction::Loop(vec![Instruction::SetCell(Arbitrary::arbitrary(g))]),
            9 => Instruction::Loop(vec![Instruction::Read]),
            10 => Instruction::Loop(vec![Instruction::Read]),
            _ => unreachable!(),
        })
    }
}

/// A program for property tests.
#[derive(Clone, Debug)]
struct Prog(Vec<Instruction>);

impl Arbitrary for Prog {
    fn arbitrary<G: Gen>(g: &mut G) -> Prog {
        let size = {
            let s = g.size();
            g.gen_range(0, s)
        };
        Prog((0..size).map(|_| Instr::arbitrary(g).0).collect())
    }
}


#[test]
fn optimize_tests_combine_increments_flat() {
    let initial = parse("++").unwrap();
    let expected = vec![Instruction::Increment(2)];
    assert_eq!(combine_increments(initial), expected);
}

#[test]
fn optimize_tests_combine_increments_unrelated() {
    let initial = parse("+>+.").unwrap();
    let expected = initial.clone();
    assert_eq!(combine_increments(initial), expected);
}

#[test]
fn optimize_tests_combine_increments_nested() {
    let initial = parse("[++]").unwrap();
    let expected = vec![Instruction::Loop(vec![
        Instruction::Increment(2)])];
    assert_eq!(combine_increments(initial), expected);
}

#[test]
fn optimize_tests_combine_increments_remove_redundant() {
    let initial = parse("+-").unwrap();
    assert_eq!(combine_increments(initial), vec![]);
}

#[test]
fn optimize_tests_combine_ptr_increments_flat() {
    let initial = parse(">>").unwrap();
    let expected = vec![Instruction::PointerIncrement(2)];
    assert_eq!(combine_ptr_increments(initial), expected);
}

#[test]
fn optimize_tests_combine_ptr_increments_unrelated() {
    let initial = parse(">+>.").unwrap();
    let expected = initial.clone();
    assert_eq!(combine_ptr_increments(initial), expected);
}

#[test]
fn optimize_tests_combine_ptr_increments_nested() {
    let initial = parse("[>>]").unwrap();
    let expected = vec![Instruction::Loop(vec![
        Instruction::PointerIncrement(2)])];
    assert_eq!(combine_ptr_increments(initial), expected);
}

#[test]
fn optimize_tests_combine_ptr_increments_remove_redundant() {
    let initial = parse("><").unwrap();
    assert_eq!(combine_ptr_increments(initial), vec![]);
}

#[test]
fn optimize_tests_should_combine_before_read() {
    // The increment before the read is dead and can be removed.
    let initial = parse("+,.").unwrap();
    let expected = vec![
        Instruction::Read,
        Instruction::Write];
    assert_eq!(optimize(initial), expected);
}

#[test]
fn optimize_tests_should_combine_before_read_nested() {
    let initial = parse("+[+,]").unwrap();
    let expected = vec![
        Instruction::SetCell(1),
        Instruction::Loop(vec![
            Instruction::Read])];
    assert_eq!(optimize(initial), expected);
}

#[test]
fn optimize_tests_simplify_zeroing_loop() {
    let initial = parse("[-]").unwrap();
    let expected = vec![Instruction::SetCell(0)];
    assert_eq!(simplify_loops(initial), expected);
}

#[test]
fn optimize_tests_simplify_nested_zeroing_loop() {
    let initial = parse("[[-]]").unwrap();
    let expected = vec![Instruction::Loop(vec![Instruction::SetCell(0)])];
    assert_eq!(simplify_loops(initial), expected);
}

#[test]
fn optimize_tests_dont_simplify_multiple_decrement_loop() {
    // A user who wrote this probably meant '[-]'. However, if the
    // current cell has the value 3, we would actually wrap around
    // (although BF does not specify this).
    let initial = parse("[--]").unwrap();
    assert_eq!(simplify_loops(initial.clone()), initial);
}

#[test]
fn optimize_tests_should_remove_dead_loops() {
    let initial = vec![
        Instruction::SetCell(0),
        Instruction::Loop(vec![]),
        Instruction::Loop(vec![])];
    let expected = vec![Instruction::SetCell(0)];
    assert_eq!(remove_dead_loops(initial), expected);
}

#[test]
fn should_remove_dead_loops_nested() {
    let initial = vec![
        Instruction::Loop(vec![
            Instruction::SetCell(0),
            Instruction::Loop(vec![])])];
    let expected = vec![
        Instruction::Loop(vec![
            Instruction::SetCell(0)])];
    assert_eq!(remove_dead_loops(initial), expected);
}

#[test]
fn optimize_tests_quickcheck_should_combine_set_and_increment() {
    fn should_combine_set_and_increment(set_amount: i32, increment_amount: i32) -> bool {
        let initial = vec![
            Instruction::SetCell(set_amount),
            Instruction::Increment(increment_amount)];
        let expected = vec![Instruction::SetCell(set_amount + increment_amount)];
        return combine_set_and_increments(initial) == expected;
    }
    quickcheck(should_combine_set_and_increment as fn(i32, i32) -> bool);
}

#[test]
fn optimize_tests_quickcheck_should_combine_set_and_set() {
    fn should_combine_set_and_set(set_amount_before: i32, set_amount_after: i32) -> bool {
        let initial = vec![
            Instruction::SetCell(set_amount_before),
            Instruction::SetCell(set_amount_after)];
        let expected = vec![Instruction::SetCell(set_amount_after)];
        return combine_set_and_increments(initial) == expected;
    }
    quickcheck(should_combine_set_and_set as fn(i32, i32) -> bool);
}

#[test]
fn optimize_tests_should_combine_set_and_set_nested() {
    let initial = vec![
        Instruction::Loop(vec![
            Instruction::SetCell(0),
            Instruction::SetCell(1)])];
    let expected = vec![
        Instruction::Loop(vec![
            Instruction::SetCell(1)])];
    assert_eq!(combine_set_and_increments(initial), expected);
}

#[test]
fn should_combine_increment_and_set() {
    let initial = vec![
        Instruction::Increment(2),
        Instruction::SetCell(3)];
    let expected = vec![Instruction::SetCell(3)];
    assert_eq!(combine_set_and_increments(initial), expected);
}

#[test]
fn optimize_tests_should_remove_redundant_set() {
    let initial = vec![
        Instruction::Loop(vec![]),
        Instruction::SetCell(0)];
    let expected = vec![
        Instruction::Loop(vec![])];
    assert_eq!(remove_redundant_sets(initial), expected);
}

fn is_pure(instrs: &Vec<Instruction>) -> bool {
    for instr in instrs {
        match instr {
            &Instruction::Loop(_) => {
                return false;
            },
            &Instruction::Read => {
                return false;
            },
            &Instruction::Write => {
                return false;
            },
            _ => ()
        }
    }
    true
}

#[test]
fn optimize_tests_quickcheck_should_annotate_known_zero_at_start() {
    fn should_annotate_known_zero_at_start(instrs: Prog) -> TestResult {
        let instrs = instrs.0;
        let annotated = annotate_known_zero(instrs);

        match annotated[0] {
            Instruction::SetCell(0) => TestResult::from_bool(true),
            _ => TestResult::from_bool(false)
        }
    }
    quickcheck(should_annotate_known_zero_at_start as fn(Prog) -> TestResult);
}

#[test]
fn optimize_tests_should_annotate_known_zero() {
    let initial = parse("+[]").unwrap();
    let expected = vec![
        Instruction::SetCell(0),
        Instruction::Increment(1),
        Instruction::Loop(vec![]),
        Instruction::SetCell(0)];
    assert_eq!(annotate_known_zero(initial), expected);
}

#[test]
fn optimize_tests_should_annotate_known_zero_nested() {
    let initial = parse("[[]]").unwrap();
    let expected = vec![
        Instruction::SetCell(0),
        Instruction::Loop(vec![
            Instruction::Loop(vec![]),
            Instruction::SetCell(0)]),
        Instruction::SetCell(0)];
    assert_eq!(annotate_known_zero(initial), expected);
}

/// When we annotate known zeroes, we have new opportunities for
/// combining instructions and loop removal. However, we should later
/// remove the Set 0 if we haven't combined it.
#[test]
fn optimize_tests_should_annotate_known_zero_cleaned_up() {
    let initial = vec![Instruction::Write];
    assert_eq!(optimize(initial.clone()), initial);
}

#[test]
fn optimize_tests_should_preserve_set_0_in_loop() {
    // Regression test.
    let initial = vec![Instruction::Read,
                       Instruction::Loop(
                           vec![Instruction::SetCell(0)])];
    assert_eq!(optimize(initial.clone()), initial);
}

#[test]
fn optimize_tests_should_remove_pure_code() {
    // The final increment here is side-effect free and can be
    // removed.
    let initial = parse("+.+").unwrap();
    let expected = vec![
        Instruction::SetCell(1),
        Instruction::Write];
    assert_eq!(optimize(initial), expected);
}

#[test]
fn optimize_tests_quickcheck_should_remove_dead_pure_code() {
    fn should_remove_dead_pure_code(instrs: Prog) -> TestResult {
        let instrs = instrs.0;
        if !is_pure(&instrs) {
            return TestResult::discard();
        }
        return TestResult::from_bool(optimize(instrs) == vec![]);
    }
    quickcheck(should_remove_dead_pure_code as fn(Prog) -> TestResult);
}

#[test]
fn optimize_tests_quickcheck_optimize_should_be_idempotent() {
    fn optimize_should_be_idempotent(instrs: Prog) -> bool {
        let instrs = instrs.0;
        // Once we've optimized once, running again shouldn't reduce the
        // instructions further. If it does, we're probably running our
        // optimisations in the wrong order.
        let minimal = optimize(instrs.clone());
        return optimize(minimal.clone()) == minimal;
    }
    quickcheck(optimize_should_be_idempotent as fn(Prog) -> bool);
}

fn count_instrs(instrs: &Vec<Instruction>) -> u64 {
    let mut count = 0;
    for instr in instrs {
        if let &Instruction::Loop(ref body) = instr {
            count += count_instrs(body);
        }
        count += 1;
    }
    count
}

#[test]
fn optimize_tests_quickcheck_optimize_should_decrease_size() {
    fn optimize_should_decrease_size(instrs: Prog) -> bool {
        let instrs = instrs.0;
        // The result of optimize() should never increase the number of
        // instructions.
        let result = optimize(instrs.clone());
        return count_instrs(&result) <= count_instrs(&instrs);
    }
    quickcheck(optimize_should_decrease_size as fn(Prog) -> bool);
}
