use mathdaddy::errors::MathError;
use mathdaddy::solve;
use mathdaddy::value::Value;
use mathdaddy::value::values_equal;

#[test]
fn precedence_scenario() {
    let sr = solve(&"3 + 4 * 2".to_string()).unwrap();
    assert_eq!(sr.postfix, "3 4 2 * +");
    assert_eq!(sr.result, Value { num: 11, den: 1 });
    assert_eq!(sr.statement, "3 + 4 * 2");
}

#[test]
fn parenthesis_scenario() {
    let sr = solve(&"( 3 + 4 ) * 2".to_string()).unwrap();
    assert_eq!(sr.postfix, "3 4 + 2 *");
    assert_eq!(sr.result, Value { num: 14, den: 1 });
}

#[test]
fn prefix_scenario() {
    let sr = solve(&"+ 3 2".to_string()).unwrap();
    assert_eq!(sr.postfix, "3 2 +");
    assert_eq!(sr.result, Value { num: 5, den: 1 });
}

#[test]
fn postfix_passthrough_scenario() {
    let sr = solve(&"3 2 +".to_string()).unwrap();
    assert_eq!(sr.postfix, "3 2 +");
    assert_eq!(sr.result, Value { num: 5, den: 1 });
}

#[test]
fn left_associative_exponentiation() {
    // The documented limitation: every operator is left-associative, so
    // 2 ^ 3 ^ 2 evaluates as (2 ^ 3) ^ 2 = 64, not 2 ^ (3 ^ 2) = 512.
    let sr = solve(&"2 ^ 3 ^ 2".to_string()).unwrap();
    assert_eq!(sr.postfix, "2 3 ^ 2 ^");
    assert_eq!(sr.result, Value { num: 64, den: 1 });
}

#[test]
fn unbalanced_parentheses_error() {
    let r = solve(&"( 3 + 4".to_string());
    assert_eq!(r.unwrap_err(), MathError::UnbalancedParentheses);
}

#[test]
fn stray_right_parenthesis_error() {
    let r = solve(&") 3 + 4".to_string());
    assert_eq!(r.unwrap_err(), MathError::UnbalancedParentheses);
}

#[test]
fn unresolved_symbol_error() {
    let r = solve(&"3 + x".to_string());
    assert_eq!(r.unwrap_err(), MathError::UnresolvedSymbol);
}

#[test]
fn single_symbol_is_unresolved() {
    let r = solve(&"x".to_string());
    assert_eq!(r.unwrap_err(), MathError::UnresolvedSymbol);
}

#[test]
fn empty_statement_error() {
    assert_eq!(solve(&"".to_string()).unwrap_err(), MathError::EmptyStatement);
    // Characters outside the recognized sets are dropped, so this statement
    // also has no tokens at all.
    assert_eq!(solve(&" .,;! ".to_string()).unwrap_err(), MathError::EmptyStatement);
}

#[test]
fn division_is_exact() {
    let sr = solve(&"7 / 2".to_string()).unwrap();
    assert_eq!(sr.result, Value { num: 7, den: 2 });
    assert!(values_equal(&sr.result, &Value { num: 14, den: 4 }));
}

#[test]
fn division_by_zero_error() {
    let r = solve(&"3 / 0".to_string());
    assert_eq!(r.unwrap_err(), MathError::DivisionByZero);
}

#[test]
fn negative_exponent_inverts() {
    let sr = solve(&"2 ^ ( 0 - 2 )".to_string()).unwrap();
    assert_eq!(sr.postfix, "2 0 2 - ^");
    assert_eq!(sr.result, Value { num: 1, den: 4 });
}

#[test]
fn fractional_exponent_error() {
    let r = solve(&"2 ^ ( 7 / 2 )".to_string());
    assert_eq!(r.unwrap_err(), MathError::NonIntegerExponent);
}

#[test]
fn addition_overflow_error() {
    let r = solve(&"9223372036854775807 + 1".to_string());
    assert_eq!(r.unwrap_err(), MathError::Overflow);
}

#[test]
fn literal_overflow_error() {
    let r = solve(&"99999999999999999999 + 1".to_string());
    assert_eq!(r.unwrap_err(), MathError::Overflow);
}

#[test]
fn power_overflow_error() {
    let r = solve(&"10 ^ 40".to_string());
    assert_eq!(r.unwrap_err(), MathError::Overflow);
}

#[test]
fn leftover_operands_error() {
    let r = solve(&"3 4".to_string());
    assert_eq!(r.unwrap_err(), MathError::LeftoverOperands);
}

#[test]
fn postfix_underflow_error() {
    let r = solve(&"3 +".to_string());
    assert_eq!(r.unwrap_err(), MathError::StackUnderflow);
}

#[test]
fn prefix_underflow_error() {
    let r = solve(&"+ 3".to_string());
    assert_eq!(r.unwrap_err(), MathError::StackUnderflow);
}

#[test]
fn nested_prefix_statement() {
    let sr = solve(&"+ * 2 3 4".to_string()).unwrap();
    assert_eq!(sr.postfix, "2 3 * 4 +");
    assert_eq!(sr.result, Value { num: 10, den: 1 });
}

#[test]
fn subtraction_can_go_negative() {
    let sr = solve(&"2 - 5".to_string()).unwrap();
    assert_eq!(sr.result, Value { num: -3, den: 1 });
}

#[test]
fn chained_same_rank_is_left_to_right() {
    let sr = solve(&"10 - 4 - 3".to_string()).unwrap();
    assert_eq!(sr.postfix, "10 4 - 3 -");
    assert_eq!(sr.result, Value { num: 3, den: 1 });
}

#[test]
fn postfix_round_trip_reproduces_result() {
    // Solving the returned postfix display string again yields the same
    // numeric result and the same display string.
    let first = solve(&"( 1 + 2 ) * ( 3 + 4 )".to_string()).unwrap();
    let second = solve(&first.postfix).unwrap();
    assert_eq!(second.result, first.result);
    assert_eq!(second.postfix, first.postfix);
}

#[test]
fn round_trip_of_single_number() {
    let first = solve(&"41 + 1".to_string()).unwrap();
    let second = solve(&first.postfix).unwrap();
    assert_eq!(second.result, first.result);
    assert_eq!(second.postfix, first.postfix);
}
