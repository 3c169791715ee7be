use advent_puzzles::expression::{
    eval, get_total, try_eval, try_get_total, Fault, OpType, Stack, Token,
};

#[test]
fn operators_apply() {
    assert_eq!(OpType::Add.eval(3, 4), 7);
    assert_eq!(OpType::Mul.eval(3, 4), 12);
    assert_eq!(OpType::Add.checked_eval(u64::MAX, 1), None);
    assert_eq!(OpType::Mul.checked_eval(1 << 32, 1 << 32), None);
    assert_eq!(OpType::Mul.checked_eval(1 << 32, 1 << 31), Some(1 << 63));
}

#[test]
fn evaluates_from_left_to_right() {
    assert_eq!(eval("1 + 2 * 3 + 4 * 5 + 6", false), Some(71));
    assert_eq!(eval("1 + (2 * 3) + (4 * (5 + 6))", false), Some(51));
    assert_eq!(eval("2 * 3 + (4 * 5)", false), Some(26));
    assert_eq!(eval("5 + (8 * 3 + 9 + 3 * 4 * 3)", false), Some(437));
    assert_eq!(eval("5 * 9 * (7 * 3 * 3 + 9 * 3 + (8 + 6 * 4))", false), Some(12240));
    assert_eq!(eval("((2 + 4 * 9) * (6 + 9 * 8 + 6) + 6) + 2 + 4 * 2", false), Some(13632));
}

#[test]
fn evaluates_sums_before_products() {
    assert_eq!(eval("1 + 2 * 3 + 4 * 5 + 6", true), Some(231));
    assert_eq!(eval("1 + (2 * 3) + (4 * (5 + 6))", true), Some(51));
    assert_eq!(eval("2 * 3 + (4 * 5)", true), Some(46));
    assert_eq!(eval("5 + (8 * 3 + 9 + 3 * 4 * 3)", true), Some(1445));
    assert_eq!(eval("5 * 9 * (7 * 3 * 3 + 9 * 3 + (8 + 6 * 4))", true), Some(669060));
    assert_eq!(eval("((2 + 4 * 9) * (6 + 9 * 8 + 6) + 6) + 2 + 4 * 2", true), Some(23340));
}

#[test]
fn malformed_expressions_have_no_value() {
    for prec in [false, true] {
        assert_eq!(eval("", prec), None);
        assert_eq!(eval("1 +", prec), None);
        assert_eq!(eval("+ 1", prec), None);
        assert_eq!(eval("(1 + 2", prec), None);
        assert_eq!(eval("1 + 2)", prec), None);
        assert_eq!(eval("1 2", prec), None);
        assert_eq!(eval("1 + x", prec), None);
        assert_eq!(eval("()", prec), None);
        assert_eq!(eval("7", prec), Some(7));
        assert_eq!(eval(" ( 7 ) ", prec), Some(7));
        assert_eq!(try_eval("1 + x", prec), Err(Fault::Invalid));
    }
    assert_eq!(eval("* 3 * 4", true), None);
    assert_eq!(eval("+ 3 * 4", true), None);
}

#[test]
fn digits_are_numbers_of_their_own() {
    // No number has more than one digit: two digits in a row are two numbers.
    assert_eq!(eval("12 + 3", false), None);
}

#[test]
fn a_result_beyond_the_range_is_a_fault() {
    let mut expr = String::from("9");
    for _ in 0..25 {
        expr.push_str(" * 9");
    }
    assert_eq!(try_eval(&expr, false), Err(Fault::TooBig));
    assert_eq!(try_eval(&expr, true), Err(Fault::TooBig));
    let mut fits = String::from("9");
    for _ in 0..19 {
        fits.push_str(" * 9");
    }
    assert_eq!(try_eval(&fits, false), Ok(9u64.pow(20)));
}

#[test]
fn totals_add_up() {
    let input: Vec<String> = vec!["2 * 3 + (4 * 5)".to_string(), "1 + 2 * 3".to_string()];
    assert_eq!(get_total(&input, false), Some(26 + 9));
    assert_eq!(get_total(&input, true), Some(46 + 9));
    let bad: Vec<String> = vec!["2 * 3".to_string(), "1 +".to_string()];
    assert_eq!(get_total(&bad, false), None);
    assert_eq!(try_get_total(&bad, false), Err(Fault::Invalid));
    assert_eq!(get_total(&Vec::new(), true), Some(0));
}

#[test]
fn the_stack_works_step_by_step() {
    let mut stack = Stack::new(true);
    assert_eq!(stack.top(), Token::Empty);
    assert!(stack.add_token(Token::Number(2)).is_ok());
    assert!(stack.add_token(Token::Operator(OpType::Mul)).is_ok());
    assert!(stack.add_token(Token::Number(3)).is_ok());
    // The product waits.
    assert_eq!(stack.stack.len(), 3);
    assert_eq!(stack.frame(0), Token::Number(3));
    assert_eq!(stack.frame(1), Token::Operator(OpType::Mul));
    assert_eq!(stack.frame(2), Token::Number(2));
    assert_eq!(stack.frame(3), Token::Empty);
    assert!(stack.add_token(Token::Operator(OpType::Add)).is_ok());
    assert!(stack.add_token(Token::Number(4)).is_ok());
    // The sum is worked out at once.
    assert_eq!(stack.top(), Token::Number(7));
    assert_eq!(stack.result(), Ok(14));
    assert_eq!(stack.add_token(Token::Empty), Err(Fault::Invalid));
    stack.pop(1);
    assert_eq!(stack.stack.len(), 0);
    stack.push_group();
    stack.push_number(5);
    assert!(stack.close_group().is_ok());
    assert_eq!(stack.top(), Token::Number(5));
    assert!(stack.push_op(OpType::Add).is_ok());
    assert!(stack.reduce().is_ok());
    assert_eq!(stack.reduce_all(), Ok(()));
    assert_eq!(stack.stack.len(), 2);

    let mut lone = Stack::new(false);
    assert!(lone.push_op(OpType::Add).is_ok());
    lone.push_number(3);
    assert_eq!(lone.reduce_all(), Err(Fault::Invalid));
    assert_eq!(lone.reduce_impl(false), Err(Fault::Invalid));
    assert_eq!(lone.stack.len(), 2);
}

#[test]
fn brackets_stand_for_their_value() {
    for prec in [false, true] {
        assert_eq!(eval("2 * (3 + 4) + 1", prec), eval("2 * 7 + 1", prec));
        assert_eq!(eval("(2 * 3) + (4 * 1)", prec), eval("6 + 4", prec));
        assert_eq!(eval("((1 + 1)) * (2)", prec), eval("2 * 2", prec));
    }
    assert_eq!(eval("2 * 7 + 1", false), Some(15));
    assert_eq!(eval("2 * 7 + 1", true), Some(16));
}

#[test]
fn sums_come_before_products() {
    // Without precedence from left to right; with precedence the product of the sums.
    assert_eq!(eval("1 + 2 * 3 + 4 * 5 + 6", false), Some((((1 + 2) * 3 + 4) * 5) + 6));
    assert_eq!(eval("1 + 2 * 3 + 4 * 5 + 6", true), Some((1 + 2) * (3 + 4) * (5 + 6)));
    assert_eq!(eval("9 * 0 + 1", false), Some(1));
    assert_eq!(eval("9 * 0 + 1", true), Some(9));
}
