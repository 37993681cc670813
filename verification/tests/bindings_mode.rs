use mathdaddy::errors::MathError;
use mathdaddy::notation::Bindings;
use mathdaddy::notation::evaluate;
use mathdaddy::notation::evaluate_with_bindings;
use mathdaddy::parser::tokenize;
use mathdaddy::table::OperatorTable;
use mathdaddy::value::Value;

#[test]
fn bound_symbols_resolve() {
    let table = OperatorTable::new();
    let mut bindings = Bindings::new();
    bindings.bind("x".to_string(), Value { num: 2, den: 1 });
    let r = evaluate_with_bindings(&tokenize("3 x +"), &table, &bindings).unwrap();
    assert_eq!(r, Value { num: 3 + 2, den: 1 });
}

#[test]
fn unbound_symbols_stay_unresolved() {
    let table = OperatorTable::new();
    let mut bindings = Bindings::new();
    bindings.bind("x".to_string(), Value { num: 2, den: 1 });
    let r = evaluate_with_bindings(&tokenize("3 y +"), &table, &bindings);
    assert_eq!(r.unwrap_err(), MathError::UnresolvedSymbol);
}

#[test]
fn first_binding_of_a_name_wins() {
    let table = OperatorTable::new();
    let mut bindings = Bindings::new();
    bindings.bind("x".to_string(), Value { num: 1, den: 1 });
    bindings.bind("x".to_string(), Value { num: 9, den: 1 });
    let r = evaluate_with_bindings(&tokenize("x"), &table, &bindings).unwrap();
    assert_eq!(r, Value { num: 1, den: 1 });
}

#[test]
fn rational_bindings_stay_exact() {
    let table = OperatorTable::new();
    let mut bindings = Bindings::new();
    bindings.bind("half".to_string(), Value { num: 1, den: 2 });
    let r = evaluate_with_bindings(&tokenize("half half +"), &table, &bindings).unwrap();
    assert_eq!(r, Value { num: 4, den: 4 });
}

#[test]
fn empty_bindings_match_strict_mode() {
    let table = OperatorTable::new();
    let empty = Bindings::new();
    let toks = tokenize("3 x +");
    let with = evaluate_with_bindings(&toks, &table, &empty);
    let strict = evaluate(&toks, &table);
    assert_eq!(with.unwrap_err(), strict.unwrap_err());
}
