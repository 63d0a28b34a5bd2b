use grid_puzzles::calibration::{
    equation_holds, evaluate, generate_possible_combinations,
    generate_possible_combinations_with_concat, parse_equation, Operation, UndoOperation,
};

#[test]
fn main_test_add() {
    let operation = Operation::Add(5);
    let result = operation.resolve(2);
    let expected = 7;

    assert_eq!(result, expected);
}

#[test]
fn main_test_multiply() {
    let operation = Operation::Multiply(5);
    let result = operation.resolve(2);
    let expected = 10;

    assert_eq!(result, expected);
}

#[test]
fn test_undo_add() {
    let undo_operation = UndoOperation {
        operation: Operation::Add(5),
        val: 7,
    };
    let result = undo_operation.undo();

    assert_eq!(result, 2);
}

#[test]
fn test_undo_multiply() {
    let undo_operation = UndoOperation {
        operation: Operation::Multiply(5),
        val: 10,
    };
    let result = undo_operation.undo();

    assert_eq!(result, 2);
}

#[test]
fn main_test_generate_possible_combinations() {
    let operands = vec![1, 2, 3];
    let result: Vec<Vec<Operation>> = generate_possible_combinations(operands);
    let expected = vec![
        vec![Operation::Add(1), Operation::Add(2), Operation::Add(3)],
        vec![Operation::Multiply(1), Operation::Add(2), Operation::Add(3)],
        vec![Operation::Add(1), Operation::Multiply(2), Operation::Add(3)],
        vec![Operation::Multiply(1), Operation::Multiply(2), Operation::Add(3)],
        vec![Operation::Add(1), Operation::Add(2), Operation::Multiply(3)],
        vec![Operation::Multiply(1), Operation::Add(2), Operation::Multiply(3)],
        vec![Operation::Add(1), Operation::Multiply(2), Operation::Multiply(3)],
        vec![Operation::Multiply(1), Operation::Multiply(2), Operation::Multiply(3)],
    ];
    assert_eq!(result, expected);
}

#[test]
fn test_add() {
    let operation = Operation::Add(5);
    let result = operation.resolve(2);
    let expected = 7;

    assert_eq!(result, expected);
}

#[test]
fn test_multiply() {
    let operation = Operation::Multiply(5);
    let result = operation.resolve(2);
    let expected = 10;

    assert_eq!(result, expected);
}

#[test]
fn test_generate_possible_combinations() {
    let operands = vec![1, 2, 3];
    let result: Vec<Vec<Operation>> = generate_possible_combinations_with_concat(operands);
    let expected = vec![
        vec![Operation::Add(1), Operation::Add(2), Operation::Add(3)],
        vec![Operation::Multiply(1), Operation::Add(2), Operation::Add(3)],
        vec![Operation::Concat(1), Operation::Add(2), Operation::Add(3)],
        vec![Operation::Add(1), Operation::Multiply(2), Operation::Add(3)],
        vec![Operation::Multiply(1), Operation::Multiply(2), Operation::Add(3)],
        vec![Operation::Concat(1), Operation::Multiply(2), Operation::Add(3)],
        vec![Operation::Add(1), Operation::Concat(2), Operation::Add(3)],
        vec![Operation::Multiply(1), Operation::Concat(2), Operation::Add(3)],
        vec![Operation::Concat(1), Operation::Concat(2), Operation::Add(3)],
        vec![Operation::Add(1), Operation::Add(2), Operation::Multiply(3)],
        vec![Operation::Multiply(1), Operation::Add(2), Operation::Multiply(3)],
        vec![Operation::Concat(1), Operation::Add(2), Operation::Multiply(3)],
        vec![Operation::Add(1), Operation::Multiply(2), Operation::Multiply(3)],
        vec![Operation::Multiply(1), Operation::Multiply(2), Operation::Multiply(3)],
        vec![Operation::Concat(1), Operation::Multiply(2), Operation::Multiply(3)],
        vec![Operation::Add(1), Operation::Concat(2), Operation::Multiply(3)],
        vec![Operation::Multiply(1), Operation::Concat(2), Operation::Multiply(3)],
        vec![Operation::Concat(1), Operation::Concat(2), Operation::Multiply(3)],
        vec![Operation::Add(1), Operation::Add(2), Operation::Concat(3)],
        vec![Operation::Multiply(1), Operation::Add(2), Operation::Concat(3)],
        vec![Operation::Concat(1), Operation::Add(2), Operation::Concat(3)],
        vec![Operation::Add(1), Operation::Multiply(2), Operation::Concat(3)],
        vec![Operation::Multiply(1), Operation::Multiply(2), Operation::Concat(3)],
        vec![Operation::Concat(1), Operation::Multiply(2), Operation::Concat(3)],
        vec![Operation::Add(1), Operation::Concat(2), Operation::Concat(3)],
        vec![Operation::Multiply(1), Operation::Concat(2), Operation::Concat(3)],
        vec![Operation::Concat(1), Operation::Concat(2), Operation::Concat(3)],
    ];
    assert_eq!(result.len(), 27);
    assert_eq!(result, expected);
}

#[test]
fn concat_appends_decimal_digits() {
    assert_eq!(Operation::Concat(345).resolve(12), 12345);
    assert_eq!(Operation::Concat(0).resolve(7), 70);
    assert_eq!(Operation::Concat(10).resolve(0), 10);
    assert_eq!(Operation::Concat(9).resolve(1), 19);
    assert_eq!(Operation::Concat(1).resolve(1844674407370955161), 18446744073709551611);
}

#[test]
fn undo_concat_drops_the_digits() {
    let undo = UndoOperation { operation: Operation::Concat(345), val: 12345 };
    assert_eq!(undo.undo(), 12);
    let undo = UndoOperation { operation: Operation::Concat(7), val: 7 };
    assert_eq!(undo.undo(), 0);
}

#[test]
fn combinations_of_no_operands() {
    assert_eq!(generate_possible_combinations(Vec::new()), vec![Vec::<Operation>::new()]);
    assert_eq!(generate_possible_combinations_with_concat(vec![4]).len(), 3);
}

#[test]
fn evaluation_runs_left_to_right() {
    let ops = vec![Operation::Add(19)];
    assert_eq!(evaluate(10, &ops), Some(29));
    let ops = vec![Operation::Multiply(40), Operation::Add(27)];
    assert_eq!(evaluate(81, &ops), Some(3267));
    let ops = vec![Operation::Multiply(8), Operation::Concat(6), Operation::Multiply(15)];
    assert_eq!(evaluate(6, &ops), Some(7290));
    let ops = vec![Operation::Multiply(u64::MAX), Operation::Multiply(2)];
    assert_eq!(evaluate(2, &ops), None);
    assert_eq!(evaluate(5, &Vec::new()), Some(5));
}

#[test]
fn equations_that_balance() {
    assert!(equation_holds(190, 10, vec![19], false));
    assert!(equation_holds(3267, 81, vec![40, 27], false));
    assert!(equation_holds(292, 11, vec![6, 16, 20], false));
    assert!(!equation_holds(7290, 6, vec![8, 6, 15], false));
    assert!(equation_holds(7290, 6, vec![8, 6, 15], true));
    assert!(equation_holds(156, 15, vec![6], true));
    assert!(!equation_holds(83, 17, vec![5], true));
}

#[test]
fn equation_lines_parse() {
    assert_eq!(parse_equation("3267: 81 40 27"), Some((3267, vec![81, 40, 27])));
    assert_eq!(parse_equation("190:10 19"), Some((190, vec![10, 19])));
    assert_eq!(parse_equation("190 10 19"), None);
    assert_eq!(parse_equation("x: 10"), None);
    assert_eq!(parse_equation("5: 1 y"), None);
}
