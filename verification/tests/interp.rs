//! End-to-end tests: source text through the parser and the evaluator.
use exprlang::environment::Environment;
use exprlang::evaluator::{eval, EvalError};
use exprlang::parser::{parse_expr, parse_program, Expr};

const FUEL: u64 = 1_000_000;

/// Parses a whole program and evaluates it in a fresh environment.
fn run(src: &str) -> (Result<i64, EvalError>, Environment) {
    let (rest, ast) = parse_program(src).expect("parse failed");
    assert!(rest.is_empty(), "unconsumed input: {:?}", rest);
    let mut env = Environment::new();
    let r = eval(&ast, &mut env, FUEL);
    (r, env)
}

/// Parses a whole program and evaluates it in the given environment.
fn run_in(src: &str, env: &mut Environment) -> Result<i64, EvalError> {
    let (rest, ast) = parse_program(src).expect("parse failed");
    assert!(rest.is_empty(), "unconsumed input: {:?}", rest);
    eval(&ast, env, FUEL)
}

#[test]
fn precedence_mul_before_add() {
    assert_eq!(run("2 + 3 * 4").0, Ok(14));
}

#[test]
fn parentheses_override_precedence() {
    assert_eq!(run("(2 + 3) * 4").0, Ok(20));
}

#[test]
fn subtraction_is_left_associative() {
    assert_eq!(run("10 - 3 - 2").0, Ok(5));
}

#[test]
fn division_is_left_associative() {
    assert_eq!(run("100 / 5 / 2").0, Ok(10));
}

#[test]
fn assignment_returns_value_and_binds() {
    let (r, env) = run("x = 5");
    assert_eq!(r, Ok(5));
    assert_eq!(env.get("x"), 5);
}

#[test]
fn variable_round_trip() {
    let mut env = Environment::new();
    assert_eq!(run_in("x = 7", &mut env), Ok(7));
    assert_eq!(run_in("x", &mut env), Ok(7));
}

#[test]
fn unbound_variable_reads_zero() {
    assert_eq!(run("y").0, Ok(0));
}

#[test]
fn if_false_takes_else() {
    assert_eq!(run("if 0 { 1 } else { 2 }").0, Ok(2));
}

#[test]
fn if_true_without_else() {
    assert_eq!(run("if 1 { 9 }").0, Ok(9));
}

#[test]
fn if_false_without_else_is_zero() {
    assert_eq!(run("if 0 { 9 }").0, Ok(0));
}

#[test]
fn while_loop_counts_to_five() {
    let (r, env) = run("x = 0; while x - 5 { x = x + 1 }");
    assert_eq!(r, Ok(5));
    assert_eq!(env.get("x"), 5);
}

#[test]
fn while_with_false_condition_never_runs() {
    let (r, env) = run("x = 3; while 0 { x = 99 }");
    assert_eq!(r, Ok(0));
    assert_eq!(env.get("x"), 3);
}

#[test]
fn function_call_isolates_caller_environment() {
    let mut env = Environment::new();
    assert_eq!(run_in("fn f(a) { a = a + 1; a }", &mut env), Ok(0));
    assert_eq!(run_in("x = 10", &mut env), Ok(10));
    assert_eq!(run_in("f(x)", &mut env), Ok(11));
    assert_eq!(env.get("x"), 10);
    assert_eq!(env.get("a"), 0);
}

#[test]
fn recursive_function_computes_factorial() {
    let (r, _) = run("fn fact(n) { if n { n * fact(n - 1) } else { 1 } } fact(5)");
    assert_eq!(r, Ok(120));
}

#[test]
fn division_by_zero_is_fatal() {
    assert_eq!(run("5 / 0").0, Err(EvalError::DivisionByZero));
}

#[test]
fn division_truncates_toward_zero() {
    assert_eq!(run("7 / 2").0, Ok(3));
    assert_eq!(run("(0 - 7) / 2").0, Ok(-3));
    assert_eq!(run("7 / (0 - 2)").0, Ok(-3));
    assert_eq!(run("(0 - 7) / (0 - 2)").0, Ok(3));
}

#[test]
fn whitespace_only_input_is_empty_program() {
    let (rest, ast) = parse_program("  \t \n  ").expect("parse failed");
    assert!(rest.is_empty());
    match &ast {
        Expr::Block(stmts) => assert!(stmts.is_empty()),
        other => panic!("expected an empty block, got {:?}", other),
    }
    let mut env = Environment::new();
    assert_eq!(eval(&ast, &mut env, FUEL), Ok(0));
}

#[test]
fn empty_block_evaluates_to_zero() {
    assert_eq!(run("{}").0, Ok(0));
}

#[test]
fn block_value_is_last_statement() {
    assert_eq!(run("{ 1; 2; 3 }").0, Ok(3));
}

#[test]
fn addition_overflow_is_an_error() {
    assert_eq!(
        run("9223372036854775807 + 1").0,
        Err(EvalError::IntegerOverflow)
    );
}

#[test]
fn most_negative_divided_by_minus_one_overflows() {
    assert_eq!(
        run("(0 - 9223372036854775807 - 1) / (0 - 1)").0,
        Err(EvalError::IntegerOverflow)
    );
}

#[test]
fn largest_literal_parses() {
    assert_eq!(run("9223372036854775807").0, Ok(9223372036854775807));
}

#[test]
fn overlarge_literal_is_a_parse_failure() {
    assert!(parse_expr("9223372036854775808").is_err());
}

#[test]
fn unknown_function_is_fatal() {
    assert_eq!(run("g(1)").0, Err(EvalError::UndefinedFunction));
}

#[test]
fn wrong_argument_count_is_fatal() {
    assert_eq!(
        run("fn f(a) { a } f(1, 2)").0,
        Err(EvalError::ArityMismatch)
    );
}

#[test]
fn endless_loop_runs_out_of_fuel() {
    let (rest, ast) = parse_program("while 1 { 1 }").expect("parse failed");
    assert!(rest.is_empty());
    let mut env = Environment::new();
    assert_eq!(eval(&ast, &mut env, 1000), Err(EvalError::OutOfFuel));
}

#[test]
fn keyword_alone_is_a_parse_failure() {
    assert!(parse_expr("if").is_err());
    assert!(parse_expr("while").is_err());
    assert!(parse_expr("= 3").is_err());
    assert!(parse_expr("").is_err());
}

#[test]
fn keyword_prefix_still_names_a_variable() {
    let (r, env) = run("ifx = 3; ifx + 1");
    assert_eq!(r, Ok(4));
    assert_eq!(env.get("ifx"), 3);
}

#[test]
fn parse_expr_reports_the_remainder() {
    let (rest, _) = parse_expr("1 + 2 }").expect("parse failed");
    assert_eq!(rest, " }");
}

#[test]
fn non_ascii_tail_is_left_unconsumed() {
    let (rest, expr) = parse_expr("1 + caf\u{e9}").expect("parse failed");
    assert_eq!(rest, "\u{e9}");
    let mut env = Environment::new();
    assert_eq!(eval(&expr, &mut env, FUEL), Ok(1));
}

#[test]
fn parse_program_never_fails_on_non_ascii() {
    let (rest, ast) = parse_program("\u{e9}").expect("parse failed");
    assert_eq!(rest, "\u{e9}");
    match &ast {
        Expr::Block(stmts) => assert!(stmts.is_empty()),
        other => panic!("expected an empty block, got {:?}", other),
    }

    let (rest, ast) = parse_program("x = 1; caf\u{e9}").expect("parse failed");
    assert_eq!(rest, "\u{e9}");
    match &ast {
        Expr::Block(stmts) => assert_eq!(stmts.len(), 2),
        other => panic!("expected a block, got {:?}", other),
    }
}

#[test]
fn non_ascii_start_fails_parse_expr() {
    let err = parse_expr("\u{e9} + 1").expect_err("expected a failure");
    assert_eq!(err.remaining, "\u{e9} + 1");
}

#[test]
fn call_arguments_use_caller_environment() {
    let (r, _) = run("fn add2(a, b) { a + b } x = 4; add2(x, x * 2)");
    assert_eq!(r, Ok(12));
}

#[test]
fn function_redefinition_replaces_the_old_one() {
    let (r, _) = run("fn f(a) { a + 1 } fn f(a) { a + 2 } f(1)");
    assert_eq!(r, Ok(3));
}

#[test]
fn environment_set_get_round_trip() {
    let mut env = Environment::new();
    assert_eq!(env.get("v"), 0);
    env.set(String::from("v"), 42);
    assert_eq!(env.get("v"), 42);
    env.set(String::from("v"), -1);
    assert_eq!(env.get("v"), -1);
}

#[test]
fn environment_function_table_round_trip() {
    let mut env = Environment::new();
    assert!(env.get_func("f").is_none());
    env.set_func(
        String::from("f"),
        vec![String::from("a")],
        Expr::Number(1),
    );
    let (params, body) = env.get_func("f").expect("function not found");
    assert_eq!(params, vec![String::from("a")]);
    assert!(matches!(body, Expr::Number(1)));
}

#[test]
fn var_tag_reads_like_ident() {
    let mut env = Environment::new();
    env.set(String::from("x"), 9);
    assert_eq!(eval(&Expr::Var(String::from("x")), &mut env, FUEL), Ok(9));
    assert_eq!(eval(&Expr::Ident(String::from("x")), &mut env, FUEL), Ok(9));
}

#[test]
fn call_allows_space_before_parenthesis() {
    assert_eq!(run("fn f(a) { a * 2 } f (21)").0, Ok(42));
}

#[test]
fn semicolons_and_newlines_separate_statements() {
    let (r, env) = run("a = 1;\n b = 2 ;; c = a + b; c * 10");
    assert_eq!(r, Ok(30));
    assert_eq!(env.get("c"), 3);
}

#[test]
fn errors_keep_mutations_made_before_the_failure() {
    let (r, env) = run("a = 1; b = a / 0; c = 5");
    assert_eq!(r, Err(EvalError::DivisionByZero));
    assert_eq!(env.get("a"), 1);
    assert_eq!(env.get("c"), 0);
}
