use mathdaddy::errors::MathError;
use mathdaddy::notation::Notation;
use mathdaddy::notation::classify;
use mathdaddy::notation::evaluate;
use mathdaddy::notation::infix_to_postfix;
use mathdaddy::notation::is_postfix;
use mathdaddy::notation::is_prefix;
use mathdaddy::notation::postfix_to_postfix;
use mathdaddy::notation::prefix_to_postfix;
use mathdaddy::notation::stack_to_string;
use mathdaddy::parser::Token;
use mathdaddy::parser::is_operand;
use mathdaddy::parser::is_operand_character;
use mathdaddy::parser::is_operand_literal;
use mathdaddy::parser::is_operand_variable;
use mathdaddy::parser::is_operator;
use mathdaddy::parser::is_parenthesis;
use mathdaddy::parser::parse;
use mathdaddy::parser::token_text;
use mathdaddy::parser::tokenize;
use mathdaddy::table::Op;
use mathdaddy::table::OperatorTable;
use mathdaddy::table::priority;
use mathdaddy::value::Value;
use mathdaddy::value::apply_op;
use mathdaddy::value::number_value;
use mathdaddy::value::values_equal;

#[test]
fn character_classes() {
    assert!(is_parenthesis('('));
    assert!(is_parenthesis(')'));
    assert!(!is_parenthesis('['));
    assert!(is_operator('+'));
    assert!(is_operator('-'));
    assert!(is_operator('*'));
    assert!(is_operator('/'));
    assert!(is_operator('^'));
    assert!(!is_operator('%'));
    assert!(is_operand_character('a'));
    assert!(is_operand_character('Z'));
    assert!(is_operand_character('7'));
    assert!(is_operand_character('_'));
    assert!(!is_operand_character(' '));
    assert!(!is_operand_character('+'));
}

#[test]
fn operand_classification() {
    assert!(is_operand_literal("123".to_string()));
    assert!(!is_operand_literal("12a".to_string()));
    assert!(!is_operand_literal("".to_string()));
    assert!(is_operand_variable("abc_3".to_string()));
    assert!(!is_operand_variable("+*".to_string()));
    assert!(is_operand(&"42".to_string()));
    assert!(is_operand(&"x1".to_string()));
    assert!(!is_operand(&"()".to_string()));
}

#[test]
fn parse_splits_into_token_texts() {
    let r = parse("12ab_3 + (x)".to_string());
    let expect = vec!["12ab_3", "+", "(", "x", ")"];
    assert_eq!(r.len(), expect.len());
    for (got, want) in r.iter().zip(expect.iter()) {
        assert_eq!(got, want);
    }
}

#[test]
fn word_runs_coalesce_and_other_characters_split() {
    // A decimal point is not a word character, so it splits the run.
    let r = parse("3.5".to_string());
    assert_eq!(r, vec!["3".to_string(), "5".to_string()]);
    // A run mixing digits and letters stays one token.
    let r2 = parse("2x + 1".to_string());
    assert_eq!(r2, vec!["2x".to_string(), "+".to_string(), "1".to_string()]);
}

#[test]
fn default_priorities_increase_in_listed_order() {
    assert_eq!(priority("+"), 1);
    assert_eq!(priority("-"), 2);
    assert_eq!(priority("*"), 3);
    assert_eq!(priority("/"), 4);
    assert_eq!(priority("^"), 5);
    assert_eq!(priority("%"), 0);
    assert_eq!(priority("++"), 0);
}

#[test]
fn classifier_priority_postfix_wins() {
    // The last token is an operator, so the sequence is postfix even though
    // the first token is also an operator.
    let toks = tokenize("+ 3 2 +");
    assert!(is_postfix(&toks));
    assert!(is_prefix(&toks));
    assert_eq!(classify(&toks), Notation::Postfix);
}

#[test]
fn classifier_defaults_to_infix() {
    assert_eq!(classify(&tokenize("")), Notation::Infix);
    assert_eq!(classify(&tokenize("5")), Notation::Infix);
    assert_eq!(classify(&tokenize("3 + 4")), Notation::Infix);
    assert_eq!(classify(&tokenize("+ 3 4")), Notation::Prefix);
}

#[test]
fn infix_converter_orders_by_rank() {
    let table = OperatorTable::new();
    let out = infix_to_postfix(&tokenize("1 + 2 * 3"), &table).unwrap();
    assert_eq!(stack_to_string(&out), "1 2 3 * +");
}

#[test]
fn prefix_converter_keeps_operand_order() {
    let out = prefix_to_postfix(&tokenize("- 7 2")).unwrap();
    assert_eq!(stack_to_string(&out), "7 2 -");
    let table = OperatorTable::new();
    let v = evaluate(&out, &table).unwrap();
    assert_eq!(v, Value { num: 5, den: 1 });
}

#[test]
fn prefix_converter_rejects_parentheses() {
    let r = prefix_to_postfix(&tokenize("+ ( 3 ) 2"));
    assert_eq!(r.unwrap_err(), MathError::UnbalancedParentheses);
}

#[test]
fn prefix_converter_reports_leftover_groups() {
    let r = prefix_to_postfix(&tokenize("+ 1 2 3"));
    assert_eq!(r.unwrap_err(), MathError::LeftoverOperands);
}

#[test]
fn postfix_passthrough_rebuilds_the_sequence() {
    let toks = tokenize("3 2 +");
    let out = postfix_to_postfix(&toks);
    assert_eq!(stack_to_string(&out), "3 2 +");
}

#[test]
fn renderer_joins_with_single_spaces() {
    assert_eq!(stack_to_string(&tokenize("3   4  +")), "3 4 +");
    assert_eq!(stack_to_string(&tokenize("")), "");
}

#[test]
fn token_texts_are_exact_substrings() {
    let toks = tokenize("12 + x");
    let texts: Vec<String> = toks.iter().map(token_text).collect();
    assert_eq!(texts, vec!["12".to_string(), "+".to_string(), "x".to_string()]);
    assert!(matches!(&toks[0], Token::Number(_)));
    assert!(matches!(&toks[1], Token::Operator(Op::Add)));
    assert!(matches!(&toks[2], Token::Symbol(_)));
}

#[test]
fn unknown_operator_is_rejected_not_defaulted() {
    // A table without an entry for `^` must reject the operator, in the
    // converter and in the evaluator, rather than give it a default rank.
    let table = OperatorTable {
        entries: vec![(Op::Add, 1), (Op::Sub, 2), (Op::Mul, 3), (Op::Div, 4)],
    };
    let conv = infix_to_postfix(&tokenize("2 ^ 3"), &table);
    assert_eq!(conv.unwrap_err(), MathError::UnknownOperator);
    let eval = evaluate(&tokenize("2 3 ^"), &table);
    assert_eq!(eval.unwrap_err(), MathError::UnknownOperator);
}

#[test]
fn evaluator_rejects_parentheses() {
    let table = OperatorTable::new();
    let r = evaluate(&tokenize("3 2 + )"), &table);
    assert_eq!(r.unwrap_err(), MathError::UnbalancedParentheses);
}

#[test]
fn whole_number_values() {
    assert_eq!(Value::from_integer(5), Value { num: 5, den: 1 });
    assert_eq!(Value::from_integer(-3), Value { num: -3, den: 1 });
}

#[test]
fn solve_with_custom_table_rejects_missing_operator() {
    let table = OperatorTable { entries: vec![(Op::Add, 1)] };
    let r = mathdaddy::notation::solve(&"2 ^ 3".to_string(), &table);
    assert_eq!(r.unwrap_err(), MathError::UnknownOperator);
    let ok = mathdaddy::notation::solve(&"2 + 3".to_string(), &table).unwrap();
    assert_eq!(ok.result, Value { num: 5, den: 1 });
}

#[test]
fn number_values_are_exact() {
    assert_eq!(number_value("42").unwrap(), Value { num: 42, den: 1 });
    assert_eq!(number_value("0").unwrap(), Value { num: 0, den: 1 });
    assert_eq!(
        number_value("9223372036854775807").unwrap(),
        Value { num: 9223372036854775807, den: 1 }
    );
    assert_eq!(number_value("9223372036854775808").unwrap_err(), MathError::Overflow);
}

#[test]
fn rational_arithmetic_is_exact() {
    let third = Value { num: 1, den: 3 };
    let sixth = Value { num: 1, den: 6 };
    let sum = apply_op(Op::Add, third, sixth).unwrap();
    assert!(values_equal(&sum, &Value { num: 1, den: 2 }));
    let product = apply_op(Op::Mul, third, sixth).unwrap();
    assert!(values_equal(&product, &Value { num: 1, den: 18 }));
    let quotient = apply_op(Op::Div, third, sixth).unwrap();
    assert!(values_equal(&quotient, &Value { num: 2, den: 1 }));
    let difference = apply_op(Op::Sub, sixth, third).unwrap();
    assert!(values_equal(&difference, &Value { num: -1, den: 6 }));
}

#[test]
fn error_descriptions_are_nonempty() {
    let errors = vec![
        MathError::UnbalancedParentheses,
        MathError::StackUnderflow,
        MathError::LeftoverOperands,
        MathError::UnresolvedSymbol,
        MathError::UnknownOperator,
        MathError::EmptyStatement,
        MathError::DivisionByZero,
        MathError::NonIntegerExponent,
        MathError::Overflow,
    ];
    for e in errors {
        assert!(!e.describe().is_empty());
    }
}
