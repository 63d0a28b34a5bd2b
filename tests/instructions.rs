use grid_puzzles::instructions::{
    enabled, split_input, sum_of_products, InvalidInstruction, MultiplyInstruction,
};

#[test]
fn main_test_split_input() {
    let result =
        split_input("xmul(2,4)%&mul[3,7]!@^do_not_mul(5,5)+mul(32,64]then(mul(11,8)mul(8,5)");
    let mut expected: Vec<&str> = Vec::new();
    expected.push("x");
    expected.push("2,4)%&mul[3,7]!@^do_not_");
    expected.push("5,5)+");
    expected.push("32,64]then(");
    expected.push("11,8)");
    expected.push("8,5)");
    assert_eq!(result, expected);
}

#[test]
fn test_split_input() {
    let result =
        split_input("xmul(2,4)&mul[3,7]!^don't()_mul(5,5)+mul(32,64](mul(11,8)undo()?mul(8,5))");
    let expected: Vec<&str> = vec![
        "x",
        "2,4)&mul[3,7]!^don't()_",
        "5,5)+",
        "32,64](",
        "11,8)undo()?",
        "8,5))",
    ];
    assert_eq!(result, expected);
}

#[test]
fn split_input_edges() {
    assert_eq!(split_input(""), vec![""]);
    assert_eq!(split_input("mul("), vec!["", ""]);
    assert_eq!(split_input("mumul(1"), vec!["mu", "1"]);
}

#[test]
fn instruction_reads_operands() {
    let instruction = MultiplyInstruction::new("2,4)%&mul").ok().unwrap();
    assert_eq!(instruction, MultiplyInstruction { left: 2, right: 4 });
    assert_eq!(instruction.calculate(), 8);
    assert_eq!(MultiplyInstruction::new("11,8)").ok().unwrap().calculate(), 88);
}

#[test]
fn instruction_errors() {
    assert_eq!(MultiplyInstruction::new("x").err(), Some(InvalidInstruction::MissingComma));
    assert_eq!(
        MultiplyInstruction::new("32,64]then(").err(),
        Some(InvalidInstruction::MissingRightParenthesis)
    );
    assert_eq!(
        MultiplyInstruction::new("a,4)").err(),
        Some(InvalidInstruction::UnparsableLeftOperand)
    );
    assert_eq!(
        MultiplyInstruction::new("3,7]!)").err(),
        Some(InvalidInstruction::UnparsableRightOperand)
    );
}

#[test]
fn enabled_follows_the_last_toggle() {
    assert!(!enabled("2,4)&mul[3,7]!^don't()_", true));
    assert!(enabled("11,8)undo()?", false));
    assert!(enabled("do()don't()do()", false));
    assert!(!enabled("don't()do()don't()", true));
    assert!(enabled("5,5)+", true));
    assert!(!enabled("5,5)+", false));
}

#[test]
fn program_totals() {
    let program = "xmul(2,4)%&mul[3,7]!@^do_not_mul(5,5)+mul(32,64]then(mul(11,8)mul(8,5))";
    assert_eq!(sum_of_products(program, false), 161);
    let program = "xmul(2,4)&mul[3,7]!^don't()_mul(5,5)+mul(32,64](mul(11,8)undo()?mul(8,5))";
    assert_eq!(sum_of_products(program, true), 48);
    assert_eq!(sum_of_products(program, false), 161);
    assert_eq!(sum_of_products("", true), 0);
    assert_eq!(sum_of_products("mul(4294967295,4294967295)", false), 18446744065119617025);
}
