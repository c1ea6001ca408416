use mal_core::env::Env;
use mal_core::eval::eval;
use mal_core::eval::get_repl_env;
use mal_core::reader::create_reader;
use mal_core::reader::start_to_ast;
use mal_core::reader::tokenize;
use mal_core::types::AST;
use mal_core::types::ASTResult;
use mal_core::types::MalError;
use mal_core::types::MalType;

fn eval_str(input: &str, env: &mut Env) -> ASTResult {
    let tokens = tokenize(input);
    let mut reader = create_reader(tokens, 0);
    let ast = start_to_ast(&mut reader).expect("input parses to a form");
    eval(ast, env)
}

fn expect_integer(input: &str, value: i64) {
    let mut env = get_repl_env();
    assert_eq!(
        eval_str(input, &mut env),
        Ok(AST::Atom(MalType::Integer(value))),
        "evaluating {}",
        input
    );
}

fn expect_failure(input: &str, description: &str) {
    let mut env = get_repl_env();
    assert_eq!(
        eval_str(input, &mut env),
        Err(MalError::Panic {
            description: description.to_string()
        }),
        "evaluating {}",
        input
    );
}

#[test]
fn add_folds_with_identity_zero() {
    expect_integer("(+ 1 2 3)", 6);
}

#[test]
fn add_of_nothing_is_zero() {
    expect_integer("(+ )", 0);
}

#[test]
fn multiply_folds_from_first() {
    expect_integer("(* 2 3 4)", 24);
}

#[test]
fn subtract_two_operands() {
    expect_integer("(- 10 4)", 6);
}

#[test]
fn divide_truncates() {
    expect_integer("(/ 7 2)", 3);
    expect_integer("(/ -7 2)", -3);
}

#[test]
fn nested_arithmetic() {
    expect_integer("(+ 1 (* 2 3) (- 5 4))", 8);
}

#[test]
fn def_binds_and_returns_value() {
    let mut env = get_repl_env();
    assert_eq!(
        eval_str("(def! x 5)", &mut env),
        Ok(AST::Atom(MalType::Integer(5)))
    );
    assert_eq!(eval_str("x", &mut env), Ok(AST::Atom(MalType::Integer(5))));
}

#[test]
fn def_value_is_evaluated() {
    let mut env = get_repl_env();
    assert_eq!(
        eval_str("(def! x (+ 2 3))", &mut env),
        Ok(AST::Atom(MalType::Integer(5)))
    );
    assert_eq!(
        eval_str("(+ x x)", &mut env),
        Ok(AST::Atom(MalType::Integer(10)))
    );
}

#[test]
fn unbound_symbol_fails() {
    expect_failure("y", "unbound symbol");
}

#[test]
fn division_by_zero_fails() {
    expect_failure("(/ 1 0)", "division by zero");
}

#[test]
fn failures_leave_the_session_usable() {
    // A reported failure is non-fatal: the same environment keeps serving
    // subsequent input.
    let mut env = get_repl_env();
    assert!(eval_str("(/ 1 0)", &mut env).is_err());
    assert!(eval_str("undefined_sym", &mut env).is_err());
    assert_eq!(
        eval_str("(+ 1 2)", &mut env),
        Ok(AST::Atom(MalType::Integer(3)))
    );
}

#[test]
fn def_wrong_arity_fails() {
    expect_failure("(def! x)", "def! expects a symbol and a value");
    expect_failure("(def! x 1 2)", "def! expects a symbol and a value");
}

#[test]
fn def_non_symbol_name_fails() {
    expect_failure("(def! 1 2)", "def! expects a symbol and a value");
}

#[test]
fn multiply_needs_an_operand() {
    expect_failure("(*)", "wrong number of arguments");
}

#[test]
fn subtract_needs_exactly_two_operands() {
    expect_failure("(- 1)", "wrong number of arguments");
    expect_failure("(- 1 2 3)", "wrong number of arguments");
}

#[test]
fn divide_needs_exactly_two_operands() {
    expect_failure("(/ 1)", "wrong number of arguments");
}

#[test]
fn non_integer_operand_fails() {
    expect_failure("(+ 1 \"x\")", "unsupported operand type");
    expect_failure("(* 2 \"x\")", "unsupported operand type");
}

#[test]
fn composite_operand_fails() {
    // An evaluated child that is not an atom cannot serve as an operand.
    expect_failure("(+ 1 ())", "unsupported operand type");
    // A vector child fails earlier: evaluating it is unimplemented.
    expect_failure("(+ 1 [2])", "not implemented");
}

#[test]
fn non_callable_head_fails() {
    expect_failure("(1 2)", "cannot apply");
}

#[test]
fn addition_overflow_fails() {
    expect_failure("(+ 9223372036854775807 1)", "integer overflow");
}

#[test]
fn subtraction_overflow_fails() {
    expect_failure("(- -9223372036854775808 1)", "integer overflow");
}

#[test]
fn multiplication_overflow_fails() {
    expect_failure("(* 9223372036854775807 2)", "integer overflow");
}

#[test]
fn division_overflow_fails() {
    expect_failure("(/ -9223372036854775808 -1)", "integer overflow");
}

#[test]
fn empty_list_self_evaluates() {
    let mut env = get_repl_env();
    assert_eq!(eval_str("()", &mut env), Ok(AST::List(vec![])));
}

#[test]
fn vector_evaluation_unimplemented() {
    expect_failure("[1 2]", "not implemented");
    expect_failure("{1 2}", "not implemented");
}

#[test]
fn string_atom_self_evaluates() {
    let mut env = get_repl_env();
    assert_eq!(
        eval_str("\"hi\"", &mut env),
        Ok(AST::Atom(MalType::Str("\"hi\"".to_string())))
    );
}

#[test]
fn operator_symbol_resolves_to_callable() {
    let mut env = get_repl_env();
    match eval_str("+", &mut env) {
        Ok(AST::Atom(MalType::Symbol(name, Some(_)))) => assert_eq!(name, "+"),
        other => panic!("expected a resolved symbol, got {:?}", other),
    }
}

#[test]
fn def_rebinding_overwrites() {
    let mut env = get_repl_env();
    assert!(eval_str("(def! x 1)", &mut env).is_ok());
    assert!(eval_str("(def! x 2)", &mut env).is_ok());
    assert_eq!(eval_str("x", &mut env), Ok(AST::Atom(MalType::Integer(2))));
}

#[test]
fn env_set_touches_only_innermost_frame() {
    let mut outer = Env::new(None);
    outer.set(&"a".to_string(), MalType::Integer(1));
    let mut inner = Env::new(Some(Box::new(outer)));
    inner.set(&"a".to_string(), MalType::Integer(2));
    assert_eq!(inner.find(&"a".to_string()), Some(&MalType::Integer(2)));
}

#[test]
fn env_find_delegates_to_enclosing_frame() {
    let mut outer = Env::new(None);
    outer.set(&"a".to_string(), MalType::Integer(1));
    let inner = Env::new(Some(Box::new(outer)));
    assert_eq!(inner.find(&"a".to_string()), Some(&MalType::Integer(1)));
    assert_eq!(inner.find(&"b".to_string()), None);
}
