use shalombot::{DigitsError, DigitsSolver, GameState, Operation, OperationType};

fn op(op_type: OperationType, num1: usize, num2: usize) -> Operation {
    Operation { op_type, num1, num2 }
}

fn solutions(target: usize, digits: Vec<usize>) -> Vec<Vec<Operation>> {
    DigitsSolver::<6>::solve(target, digits).unwrap().get_solutions()
}

#[test]
fn state_is_sorted_and_padded() {
    let s = GameState::<6>::new(vec![5, 2, 3]).unwrap();
    assert_eq!(s.num_digits, 3);
    assert_eq!(s.digits, vec![2, 3, 5, 0, 0, 0]);
    assert_eq!(s.as_vec(), vec![2, 3, 5]);
}

#[test]
fn state_ignores_order_of_digits() {
    let a = GameState::<6>::new(vec![3, 1, 2, 2]).unwrap();
    let b = GameState::<6>::new(vec![2, 2, 3, 1]).unwrap();
    let c = GameState::<6>::new(vec![1, 2, 3, 2]).unwrap();
    assert!(a == b);
    assert!(b == c);
    assert!(a.same_numbers(&c));
    let d = GameState::<6>::new(vec![1, 2, 3]).unwrap();
    assert!(a != d);
}

#[test]
fn state_over_capacity_is_rejected() {
    assert_eq!(
        GameState::<6>::new(vec![1, 2, 3, 4, 5, 6, 7]).unwrap_err(),
        DigitsError::TooManyDigits
    );
    assert!(GameState::<6>::new(vec![1, 2, 3, 4, 5, 6]).is_ok());
    assert!(GameState::<6>::new(vec![]).is_ok());
    assert_eq!(
        DigitsSolver::<6>::solve(10, vec![1, 2, 3, 4, 5, 6, 7]).unwrap_err(),
        DigitsError::TooManyDigits
    );
}

#[test]
fn state_contains_value() {
    let s = GameState::<6>::new(vec![4, 9]).unwrap();
    assert!(s.contains_value(9));
    assert!(!s.contains_value(0));
}

#[test]
fn operate_add_and_multiply() {
    assert_eq!(OperationType::Add.operate(2, 3), Some(5));
    assert_eq!(OperationType::Multiply.operate(5, 2), Some(10));
    assert_eq!(OperationType::Add.operate(usize::MAX, 1), None);
    assert_eq!(OperationType::Multiply.operate(usize::MAX, 2), None);
}

#[test]
fn operate_subtract_needs_positive_result() {
    assert_eq!(OperationType::Subtract.operate(5, 3), Some(2));
    assert_eq!(OperationType::Subtract.operate(3, 3), None);
    assert_eq!(OperationType::Subtract.operate(3, 5), None);
}

#[test]
fn operate_divide_needs_exact_nonzero_divisor() {
    assert_eq!(OperationType::Divide.operate(6, 3), Some(2));
    assert_eq!(OperationType::Divide.operate(7, 2), None);
    assert_eq!(OperationType::Divide.operate(5, 0), None);
    assert_eq!(OperationType::Divide.operate(0, 4), Some(0));
}

#[test]
fn symbols_round_trip() {
    let kinds = [
        OperationType::Add,
        OperationType::Subtract,
        OperationType::Multiply,
        OperationType::Divide,
    ];
    let symbols = ["+", "-", "*", "/"];
    for (kind, sym) in kinds.iter().zip(symbols.iter()) {
        assert_eq!(kind.symbol(), *sym);
        let c = kind.symbol().chars().next().unwrap();
        assert_eq!(OperationType::from_symbol(c), Some(*kind));
    }
    assert_eq!(OperationType::from_symbol('x'), None);
}

#[test]
fn rendered_text_reads_back_to_kind() {
    let cases = [
        op(OperationType::Add, 12, 30),
        op(OperationType::Subtract, 9, 4),
        op(OperationType::Multiply, 5, 2),
        op(OperationType::Divide, 100, 25),
    ];
    let texts = ["12 + 30 = 42", "9 - 4 = 5", "5 * 2 = 10", "100 / 25 = 4"];
    for (o, text) in cases.iter().zip(texts.iter()) {
        let rendered = o.render();
        assert_eq!(rendered, *text);
        let sym = rendered.split(' ').nth(1).unwrap().chars().next().unwrap();
        assert_eq!(OperationType::from_symbol(sym), Some(o.op_type));
    }
    assert_eq!(op(OperationType::Add, 0, 0).render(), "0 + 0 = 0");
}

#[test]
fn operation_result() {
    assert_eq!(op(OperationType::Divide, 9, 3).result(), Some(3));
    assert_eq!(op(OperationType::Divide, 9, 2).result(), None);
}

#[test]
fn transitions_remove_one_number() {
    let s = GameState::<6>::new(vec![2, 3, 5]).unwrap();
    let next = s.next_states();
    assert!(!next.is_empty());
    for t in &next {
        assert_eq!(t.state.num_digits, 2);
        assert!(!t.operations.is_empty());
        for o in &t.operations {
            assert!(o.result().is_some());
        }
    }
    for i in 0..next.len() {
        for j in (i + 1)..next.len() {
            assert!(!next[i].state.same_numbers(&next[j].state));
        }
    }
}

#[test]
fn transitions_use_higher_slot_as_left_operand() {
    let s = GameState::<6>::new(vec![3, 2]).unwrap();
    let next = s.next_states();
    let states: Vec<Vec<usize>> = next.iter().map(|t| t.state.as_vec()).collect();
    assert_eq!(states, vec![vec![5], vec![1], vec![6]]);
    assert_eq!(
        next[0].operations,
        vec![op(OperationType::Add, 3, 2), op(OperationType::Add, 3, 2)]
    );
    assert_eq!(
        next[1].operations,
        vec![op(OperationType::Subtract, 3, 2), op(OperationType::Subtract, 3, 2)]
    );
}

#[test]
fn transitions_merge_equal_results() {
    let s = GameState::<6>::new(vec![2, 2]).unwrap();
    let next = s.next_states();
    let states: Vec<Vec<usize>> = next.iter().map(|t| t.state.as_vec()).collect();
    assert_eq!(states, vec![vec![4], vec![1]]);
    assert_eq!(next[0].operations.len(), 4);
}

#[test]
fn single_digit_gives_no_solution() {
    assert!(solutions(1, vec![5]).is_empty());
    assert!(solutions(5, vec![5]).is_empty());
    assert!(solutions(0, vec![]).is_empty());
}

#[test]
fn scenario_one_step_product() {
    let sols = solutions(10, vec![2, 3, 5]);
    assert!(sols.contains(&vec![op(OperationType::Multiply, 5, 2)]));
    for s in &sols {
        assert_eq!(s.len(), 1);
    }
    let texts: Vec<String> = sols.iter().map(|s| s[0].render()).collect();
    assert!(texts.contains(&"5 * 2 = 10".to_string()));
}

#[test]
fn scenario_two_ones_cannot_make_hundred() {
    assert!(solutions(100, vec![1, 1]).is_empty());
    let solver = DigitsSolver::<6>::solve(100, vec![1, 1]).unwrap();
    assert_eq!(solver.best_solution_size, 1);
    assert_eq!(solver.nodes.len(), 3);
}

#[test]
fn solutions_are_legal_and_reach_target() {
    let target = 24;
    let sols = solutions(target, vec![1, 2, 3, 4]);
    assert!(!sols.is_empty());
    let len = sols[0].len();
    for s in &sols {
        assert_eq!(s.len(), len);
        let mut numbers = vec![1usize, 2, 3, 4];
        for o in s {
            let r = o.result().unwrap();
            let i = numbers.iter().position(|&n| n == o.num1).unwrap();
            numbers.remove(i);
            let j = numbers.iter().position(|&n| n == o.num2).unwrap();
            numbers.remove(j);
            numbers.push(r);
        }
        assert!(numbers.contains(&target));
    }
}

#[test]
fn two_step_solution() {
    let sols = solutions(11, vec![2, 3, 5]);
    assert!(!sols.is_empty());
    for s in &sols {
        assert_eq!(s.len(), 2);
    }
}

#[test]
fn solve_is_deterministic() {
    let inputs = [(10, vec![2, 3, 5]), (24, vec![1, 2, 3, 4]), (123, vec![1, 5, 7, 9, 11])];
    for (target, digits) in inputs.iter() {
        let a = solutions(*target, digits.clone());
        let b = solutions(*target, digits.clone());
        assert_eq!(a, b);
    }
}

#[test]
fn unreachable_target_gives_no_solution() {
    assert!(solutions(1000, vec![1, 2]).is_empty());
}

#[test]
fn six_numbers_are_solved() {
    let sols = solutions(462, vec![3, 5, 7, 11, 13, 19]);
    assert!(!sols.is_empty());
}

#[test]
fn six_numbers_without_solution() {
    assert!(solutions(100_000, vec![1, 2, 3, 4, 5, 6]).is_empty());
}
