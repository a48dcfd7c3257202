use l1_frontend::analyzer::{
    analyze, explain, failing_pass, no_return_in_main, num_range, variable_dec_init_and_usage, Pass,
};
use l1_frontend::grammar::{Expression, Identifier, Statement};
use l1_frontend::parser::{parse, statement_parser, statements_parser};

#[test]
fn return_zero_passes_everything() {
    let program = parse("int main() { return 0; }").unwrap();
    assert!(num_range::analyze(&program).is_ok());
    assert!(variable_dec_init_and_usage::analyze(&program).is_ok());
    assert!(no_return_in_main::analyze(&program).is_ok());
    assert!(analyze(&program).is_ok());
}

#[test]
fn unread_declaration_passes_everything() {
    let program = parse("int main() { int a; int b = 0xCAFEBABE; return 0; }").unwrap();
    assert!(num_range::analyze(&program).is_ok());
    assert!(variable_dec_init_and_usage::analyze(&program).is_ok());
    assert!(no_return_in_main::analyze(&program).is_ok());
    assert!(analyze(&program).is_ok());
}

#[test]
fn body_without_return_fails_the_return_pass_alone() {
    let program = parse("int main() { int a = 42; int b = 0xCAFEBABE; }").unwrap();
    assert!(num_range::analyze(&program).is_ok());
    assert!(variable_dec_init_and_usage::analyze(&program).is_ok());
    assert!(no_return_in_main::analyze(&program).is_err());
    assert!(analyze(&program).is_err());
}

#[test]
fn literal_above_the_limit_fails_the_range_pass_alone() {
    let program = parse("int main() { return 2147483649; }").unwrap();
    assert!(num_range::analyze(&program).is_err());
    assert!(variable_dec_init_and_usage::analyze(&program).is_ok());
    assert!(no_return_in_main::analyze(&program).is_ok());
    assert!(analyze(&program).is_err());
}

#[test]
fn literal_at_the_limit_passes() {
    assert!(analyze(&parse("int main() { return 2147483648; }").unwrap()).is_ok());
    assert!(analyze(&parse("int main() { return -2147483648; }").unwrap()).is_ok());
    assert!(analyze(&parse("int main() { return -2147483649; }").unwrap()).is_err());
    assert!(analyze(&parse("int main() { return 0xFFFFFFFF; }").unwrap()).is_ok());
    assert!(analyze(&parse("int main() { return 0x100000000; }").unwrap()).is_err());
    assert!(analyze(&parse("int main() { return 0x0; }").unwrap()).is_ok());
    assert!(analyze(&parse("int main() { return -0X0; }").unwrap()).is_ok());
}

#[test]
fn self_initialisation_fails_the_variable_pass() {
    let program = parse("int main() { int x = x; }").unwrap();
    assert!(num_range::analyze(&program).is_ok());
    assert!(variable_dec_init_and_usage::analyze(&program).is_err());
    assert!(analyze(&program).is_err());
}

#[test]
fn range_is_checked_in_every_kind_of_statement() {
    assert!(num_range::analyze(&parse("int main() { int a = 2147483649; return 0; }").unwrap()).is_err());
    assert!(num_range::analyze(&parse("int main() { int a; a = 1 + 2147483649; return 0; }").unwrap()).is_err());
    assert!(num_range::analyze(&parse("int main() { int a; a += (0x1FFFFFFFF); return 0; }").unwrap()).is_err());
    assert!(num_range::analyze(&parse("int main() { int a; a = 7; return a; }").unwrap()).is_ok());
}

#[test]
fn return_may_stand_anywhere() {
    assert!(no_return_in_main::analyze(&parse("int main() { return 0; int a; }").unwrap()).is_ok());
    assert!(no_return_in_main::analyze(&parse("int main() { int a; return 0; int b; }").unwrap()).is_ok());
    assert!(no_return_in_main::analyze(&parse("int main() { int a; a = 1; }").unwrap()).is_err());
    assert!(no_return_in_main::analyze(&parse("int main() { }").unwrap()).is_err());
}

#[test]
fn return_pass_looks_at_the_kind_of_statement() {
    assert_eq!(
        no_return_in_main::analyze_statement(&Statement::Return(Expression::Ident(Identifier("x")))),
        Ok(true)
    );
    assert_eq!(
        no_return_in_main::analyze_statement(&statement_parser("int returned = 1;").unwrap()),
        Ok(false)
    );
    assert_eq!(
        no_return_in_main::analyze_statement(&statement_parser("returned = 1;").unwrap()),
        Ok(false)
    );
    assert!(no_return_in_main::analyze_statements(&statements_parser("int a; return a;").unwrap()).is_ok());
    assert!(no_return_in_main::analyze_statements(&statements_parser("").unwrap()).is_err());
}

#[test]
fn passes_give_the_same_on_every_run() {
    for code in [
        "int main() { return 0; }",
        "int main() { int a; int b = 0xCAFEBABE; return 0; }",
        "int main() { int a = 42; int b = 0xCAFEBABE; }",
        "int main() { return 2147483649; }",
        "int main() { int x = x; }",
    ] {
        let program = parse(code).unwrap();
        assert_eq!(num_range::analyze(&program), num_range::analyze(&program));
        assert_eq!(
            variable_dec_init_and_usage::analyze(&program),
            variable_dec_init_and_usage::analyze(&program)
        );
        assert_eq!(no_return_in_main::analyze(&program), no_return_in_main::analyze(&program));
        assert_eq!(analyze(&program), analyze(&program));
        assert_eq!(parse(code), Ok(program));
    }
}

#[test]
fn the_first_failing_pass_is_named() {
    assert_eq!(failing_pass(&parse("int main() { return 0; }").unwrap()), None);
    assert_eq!(
        failing_pass(&parse("int main() { int x = 2147483649 + x; }").unwrap()),
        Some(Pass::IntegerRange)
    );
    assert_eq!(failing_pass(&parse("int main() { int x = x; }").unwrap()), Some(Pass::Variables));
    assert_eq!(failing_pass(&parse("int main() { int x = 1; }").unwrap()), Some(Pass::Return));
    assert_eq!(
        failing_pass(&parse("int main() { int x = 2147483649; }").unwrap()),
        Some(Pass::IntegerRange)
    );
}

#[test]
fn the_first_failure_is_put_in_words() {
    assert_eq!(explain(&parse("int main() { return 0; }").unwrap()), None);
    assert_eq!(
        explain(&parse("int main() { return 2147483649; }").unwrap()),
        Some("an integer literal is out of range".to_string())
    );
    assert_eq!(
        explain(&parse("int main() { int x = x; }").unwrap()),
        Some("`x` is used before it is declared".to_string())
    );
    assert_eq!(
        explain(&parse("int main() { int x; int x; return 0; }").unwrap()),
        Some("`x` is declared twice".to_string())
    );
    assert_eq!(
        explain(&parse("int main() { int x; return x; }").unwrap()),
        Some("`x` is read before it has a value".to_string())
    );
    assert_eq!(
        explain(&parse("int main() { int x = 1; }").unwrap()),
        Some("the body of `main` holds no `return`".to_string())
    );
}
