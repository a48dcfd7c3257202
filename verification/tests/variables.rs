use l1_frontend::analyzer::variable_dec_init_and_usage::{
    analyze, find_violation, target_of, Analyzer, ScopeError,
};
use l1_frontend::grammar::{Identifier, LValue};
use l1_frontend::parser::{decl_parser, exp_parser, lvalue_parser, parse, simp_parser, statement_parser};

fn accepted(code: &str) -> bool {
    analyze(&parse(code).unwrap()).is_ok()
}

#[test]
fn declared_and_never_read_is_fine() {
    assert!(accepted("int main() { int a; int b = 0xCAFEBABE; return 0; }"));
    assert!(accepted("int main() { }"));
    assert!(accepted("int main() { return 1 + 2; }"));
}

#[test]
fn name_read_in_its_own_initialiser_is_refused() {
    assert!(!accepted("int main() { int x = x; }"));
    assert!(!accepted("int main() { int x = 1 + (2 * -x); return 0; }"));
}

#[test]
fn name_read_before_any_declaration_is_refused() {
    assert!(!accepted("int main() { return x; }"));
    assert!(!accepted("int main() { int y = x; int x = 1; return y; }"));
    assert!(!accepted("int main() { int y = 1; y = x; int x; return y; }"));
    assert!(!accepted("int main() { return x; int x = 1; }"));
}

#[test]
fn name_declared_twice_is_refused() {
    assert!(!accepted("int main() { int a; int a; return 0; }"));
    assert!(!accepted("int main() { int a; int a = 1; return 0; }"));
    assert!(!accepted("int main() { int a = 1; int a; return 0; }"));
    assert!(!accepted("int main() { int a = 1; int b; int a = 2; return 0; }"));
}

#[test]
fn name_read_without_a_value_is_refused() {
    assert!(!accepted("int main() { int a; return a; }"));
    assert!(!accepted("int main() { int a; int b = a; return b; }"));
    assert!(!accepted("int main() { int a; int b; b = a; return 0; }"));
}

#[test]
fn assignment_needs_a_declared_target() {
    assert!(!accepted("int main() { a = 1; return 0; }"));
    assert!(!accepted("int main() { a = 1; int a; return 0; }"));
    assert!(!accepted("int main() { int b; (a) = 1; return 0; }"));
}

#[test]
fn assignment_gives_its_target_a_value() {
    assert!(accepted("int main() { int a; a = 1; return a; }"));
    assert!(accepted("int main() { int a; ((a)) = 1; int b = a + a; return b; }"));
    assert!(accepted("int main() { int a; a += 1; return a; }"));
    assert!(accepted("int main() { int a = 1; a = a + 1; a *= a; return a; }"));
}

#[test]
fn names_differ_by_every_character() {
    assert!(!accepted("int main() { int a; int A = a; return A; }"));
    assert!(accepted("int main() { int a = 1; int ab = a; int _a = ab; return _a; }"));
    assert!(!accepted("int main() { int ab = 1; return a; }"));
    assert!(!accepted("int main() { int a = 1; return ab; }"));
}

#[test]
fn a_second_run_of_the_pass_gives_the_same() {
    let good = parse("int main() { int a = 1; return a; }").unwrap();
    let bad = parse("int main() { int a = a; return a; }").unwrap();
    assert_eq!(analyze(&good), Ok(()));
    assert_eq!(analyze(&good), Ok(()));
    assert_eq!(analyze(&bad), Err(()));
    assert_eq!(analyze(&bad), Err(()));
}

#[test]
fn analyzer_goes_statement_by_statement() {
    let mut analyzer = Analyzer::new();
    assert!(analyzer.analyze_exp(&exp_parser("1 + 2").unwrap()).is_ok());
    assert!(analyzer.analyze_exp(&exp_parser("a").unwrap()).is_err());
    assert!(analyzer.analyze_lvalue(&lvalue_parser("a").unwrap()).is_err());
    assert!(analyzer.analyze_decl(&decl_parser("int a").unwrap()).is_ok());
    assert!(analyzer.analyze_lvalue(&lvalue_parser("(a)").unwrap()).is_ok());
    assert!(analyzer.analyze_exp(&exp_parser("a").unwrap()).is_err());
    assert!(analyzer.analyze_decl(&decl_parser("int a").unwrap()).is_err());
    assert!(analyzer.analyze_simp(&simp_parser("a = a").unwrap()).is_err());
    assert!(analyzer.analyze_simp(&simp_parser("b = 1").unwrap()).is_err());
    assert!(analyzer.analyze_simp(&simp_parser("a = 1").unwrap()).is_ok());
    assert!(analyzer.analyze_exp(&exp_parser("a").unwrap()).is_ok());
    assert!(analyzer.analyze_decl(&decl_parser("int b = a + b").unwrap()).is_err());
    assert!(analyzer.analyze_lvalue(&lvalue_parser("b").unwrap()).is_err());
    assert!(analyzer.analyze_decl(&decl_parser("int b = a + a").unwrap()).is_ok());
    assert!(analyzer.analyze_statement(&statement_parser("return a * b;").unwrap()).is_ok());
    assert!(analyzer.analyze_statement(&statement_parser("return c;").unwrap()).is_err());
}

#[test]
fn a_failed_statement_leaves_the_state_as_it_was() {
    let mut analyzer = Analyzer::new();
    assert!(analyzer.analyze_decl(&decl_parser("int a = a").unwrap()).is_err());
    assert!(analyzer.analyze_decl(&decl_parser("int a").unwrap()).is_ok());
    assert!(analyzer.analyze_simp(&simp_parser("a = b").unwrap()).is_err());
    assert!(analyzer.analyze_exp(&exp_parser("a").unwrap()).is_err());
}

#[test]
fn analyzer_stops_at_the_first_violation() {
    let program = parse("int main() { int a = 1; int b = c; int d = 2; return a; }").unwrap();
    let mut analyzer = Analyzer::new();
    assert!(analyzer.analyze(&program).is_err());
    assert!(analyzer.analyze_exp(&exp_parser("a").unwrap()).is_ok());
    assert!(analyzer.analyze_lvalue(&lvalue_parser("b").unwrap()).is_err());
    assert!(analyzer.analyze_lvalue(&lvalue_parser("d").unwrap()).is_err());
    let mut fresh = Analyzer::default();
    assert!(fresh.analyze_statements(&program.0).is_err());
}

#[test]
fn target_is_the_name_inside_the_parentheses() {
    assert_eq!(target_of(&LValue::Ident(Identifier("x"))), "x");
    assert_eq!(target_of(&lvalue_parser("(((y)))").unwrap()), "y");
}

fn first(code: &str) -> Option<ScopeError<'_>> {
    find_violation(&parse(code).unwrap())
}

#[test]
fn violations_are_told_apart() {
    assert_eq!(first("int main() { int a = 1; return a; }"), None);
    assert_eq!(first("int main() { int a; int a; }"), Some(ScopeError::Redeclaration("a")));
    assert_eq!(first("int main() { int a = 1; int a = 2; }"), Some(ScopeError::Redeclaration("a")));
    assert_eq!(first("int main() { return a; }"), Some(ScopeError::UseBeforeDeclare("a")));
    assert_eq!(first("int main() { a = 1; }"), Some(ScopeError::UseBeforeDeclare("a")));
    assert_eq!(first("int main() { int a; return a; }"), Some(ScopeError::UseBeforeInitialize("a")));
    assert_eq!(first("int main() { int x = x; }"), Some(ScopeError::UseBeforeDeclare("x")));
    assert_eq!(
        first("int main() { int x; int x = x; }"),
        Some(ScopeError::UseBeforeInitialize("x"))
    );
    assert_eq!(
        first("int main() { int a = 1; int b; a = (a + b) * c; }"),
        Some(ScopeError::UseBeforeInitialize("b"))
    );
    assert_eq!(
        first("int main() { int a = 1; a = c - (a + b); }"),
        Some(ScopeError::UseBeforeDeclare("c"))
    );
    assert_eq!(
        first("int main() { int a = 1; b = c; }"),
        Some(ScopeError::UseBeforeDeclare("b"))
    );
    assert_eq!(
        first("int main() { int a; int a = b; return c; }"),
        Some(ScopeError::UseBeforeDeclare("b"))
    );
}

#[test]
fn analyzer_explains_a_statement_without_changing() {
    let mut analyzer = Analyzer::new();
    let declaration = statement_parser("int a = b;").unwrap();
    assert_eq!(analyzer.violation(&declaration), Some(ScopeError::UseBeforeDeclare("b")));
    assert_eq!(analyzer.violation(&statement_parser("int b;").unwrap()), None);
    assert_eq!(analyzer.violation(&declaration), Some(ScopeError::UseBeforeDeclare("b")));
    assert!(analyzer.analyze_statement(&statement_parser("int b;").unwrap()).is_ok());
    assert_eq!(analyzer.violation(&declaration), Some(ScopeError::UseBeforeInitialize("b")));
    assert_eq!(analyzer.bad_read(&exp_parser("1 + b").unwrap()), Some(ScopeError::UseBeforeInitialize("b")));
    assert_eq!(analyzer.bad_read(&exp_parser("1 + 2").unwrap()), None);
}

#[test]
fn violations_are_put_in_words() {
    assert_eq!(ScopeError::Redeclaration("a").message(), "`a` is declared twice");
    assert_eq!(ScopeError::UseBeforeDeclare("b_1").message(), "`b_1` is used before it is declared");
    assert_eq!(ScopeError::UseBeforeInitialize("c").message(), "`c` is read before it has a value");
}
