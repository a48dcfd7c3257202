use l1_frontend::grammar::{
    AsNop, BinOperation, Declaration, Decnum, Expression, Hexnum, Identifier, Intconst, LValue,
    Program, SimpleInstruction, Statement, Statements, UnOperation,
};
use l1_frontend::parser::lexical::{Expected, Word};
use l1_frontend::parser::{
    asnop_parser, decl_parser, decnum_parser, exp_parser, hexnum_parser, ident_parser,
    intconst_parser, lvalue_parser, parse, simp_parser, statement_parser, statements_parser,
    unop_parser, ParseError, Span,
};

fn dec(text: &str) -> Expression<'_> {
    Expression::Intconst(Intconst::Decnum(Decnum(text)))
}

fn hex(text: &str) -> Expression<'_> {
    Expression::Intconst(Intconst::Hexnum(Hexnum(text)))
}

fn name(text: &str) -> Expression<'_> {
    Expression::Ident(Identifier(text))
}

fn binop<'a>(left: Expression<'a>, op: BinOperation, right: Expression<'a>) -> Expression<'a> {
    Expression::Binop { left: Box::new(left), op, right: Box::new(right) }
}

fn minus(right: Expression<'_>) -> Expression<'_> {
    Expression::Unop { op: UnOperation::Minus, right: Box::new(right) }
}

fn nested(inner: Expression<'_>) -> Expression<'_> {
    Expression::NestedExp(Box::new(inner))
}

fn list<'a>(statements: Vec<Statement<'a>>) -> Statements<'a> {
    let mut result = Statements::Empty;
    for statement in statements.into_iter().rev() {
        result = Statements::Statement { current: statement, next: Box::new(result) };
    }
    result
}

fn error(start: usize, end: usize, expected: Expected) -> ParseError {
    ParseError { span: Span { start, end }, expected }
}

// == statements
#[test]
fn statements_return() {
    assert_eq!(
        statements_parser("return 0;"),
        Ok(Statements::Statement {
            current: Statement::Return(Expression::Intconst(Intconst::Decnum(Decnum("0")))),
            next: Box::new(Statements::Empty)
        })
    )
}

#[test]
fn statements_empty() {
    assert_eq!(statements_parser(""), Ok(Statements::Empty));
}

#[test]
fn statements_empty_padded() {
    assert_eq!(statements_parser(" "), Ok(Statements::Empty))
}

// == statement
#[test]
fn statement_simple_return() {
    assert_eq!(
        statement_parser(" return 0; "),
        Ok(Statement::Return(Expression::Intconst(Intconst::Decnum(
            Decnum("0")
        ))))
    );
}

// == ident
#[test]
fn ident_simple() {
    assert_eq!(ident_parser("hello"), Ok(Identifier("hello")));
}

#[test]
fn ident_full() {
    assert_eq!(ident_parser("AZaz_0"), Ok(Identifier("AZaz_0")));
}

#[test]
fn ident_invalid() {
    assert!(ident_parser("0no").is_err());
}

#[test]
fn ident_keyword() {
    assert!(ident_parser("struct").is_err());
}

// == decnum
#[test]
fn decnum_parser_zero() {
    assert_eq!(decnum_parser("0"), Ok(Decnum("0")));
}

#[test]
fn decnum_parser_valid_number() {
    assert_eq!(decnum_parser("123"), Ok(Decnum("123")));
}

#[test]
fn decnum_parser_invalid_number() {
    assert!(decnum_parser("0123").is_err());
}

// == hexnum
#[test]
fn hexnum_parser_simple() {
    assert_eq!(hexnum_parser("0xabc"), Ok(Hexnum("0xabc")));
}

#[test]
fn hexnum_parser_big_x() {
    assert_eq!(hexnum_parser("0Xabc"), Ok(Hexnum("0Xabc")));
}

#[test]
fn hexnum_parser_missing_numbers() {
    assert!(hexnum_parser("0x").is_err());
}

// == programs

#[test]
fn empty_main() {
    assert_eq!(parse("int main() { }"), Ok(Program(Statements::Empty)));
}

#[test]
fn simple_return_main() {
    assert_eq!(
        parse("int main() { return 0; }"),
        Ok(Program(Statements::Statement {
            current: Statement::Return(Expression::Intconst(Intconst::Decnum(Decnum("0")))),
            next: Box::new(Statements::Empty)
        }))
    );
}

// == sandbox
#[test]
fn sandbox() {}

// == identifiers and words

#[test]
fn every_reserved_word_is_refused_as_identifier() {
    let reserved = [
        "struct", "if", "else", "while", "for", "continue", "break", "return", "assert", "true",
        "false", "NULL", "print", "read", "alloc", "alloc_array", "int", "bool", "void", "char",
        "string",
    ];
    for word in reserved {
        assert_eq!(ident_parser(word), Err(error(0, 1, Expected::Identifier)), "{}", word);
        let padded = format!("  {} ", word);
        assert_eq!(ident_parser(&padded), Err(error(2, 3, Expected::Identifier)), "{}", word);
    }
}

#[test]
fn a_word_that_only_begins_like_a_reserved_word_is_an_identifier() {
    for word in ["integer", "returned", "int1", "Int", "null", "_int", "iff", "structs", "main"] {
        assert_eq!(ident_parser(word), Ok(Identifier(word)), "{}", word);
    }
}

#[test]
fn identifier_is_kept_without_its_padding() {
    assert_eq!(ident_parser("  hello\n"), Ok(Identifier("hello")));
    assert_eq!(ident_parser("\t_\t"), Ok(Identifier("_")));
}

#[test]
fn identifier_stops_at_what_is_no_part_of_it() {
    assert_eq!(ident_parser("a-b"), Err(error(1, 2, Expected::EndOfInput)));
    assert_eq!(ident_parser("a b"), Err(error(2, 3, Expected::EndOfInput)));
    assert_eq!(ident_parser("é"), Err(error(0, 2, Expected::Identifier)));
    assert_eq!(ident_parser(""), Err(error(0, 0, Expected::Identifier)));
}

// == literals

#[test]
fn decimal_literals_keep_their_text() {
    for text in ["0", "1", "9", "10", "99", "2147483648", "2147483649", "123456789012345678901234567890"] {
        assert_eq!(decnum_parser(text), Ok(Decnum(text)), "{}", text);
        assert_eq!(intconst_parser(text), Ok(Intconst::Decnum(Decnum(text))), "{}", text);
        assert_eq!(exp_parser(text), Ok(dec(text)), "{}", text);
    }
}

#[test]
fn hex_literals_keep_their_text() {
    for text in ["0x0", "0X0", "0xCAFEBABE", "0xcafebabe", "0x00000000001", "0XaBcDeF0123456789"] {
        assert_eq!(hexnum_parser(text), Ok(Hexnum(text)), "{}", text);
        assert_eq!(intconst_parser(text), Ok(Intconst::Hexnum(Hexnum(text))), "{}", text);
        assert_eq!(exp_parser(text), Ok(hex(text)), "{}", text);
    }
}

#[test]
fn literal_is_kept_without_its_padding() {
    assert_eq!(decnum_parser(" 42 "), Ok(Decnum("42")));
    assert_eq!(hexnum_parser("\n0xff\t"), Ok(Hexnum("0xff")));
}

#[test]
fn malformed_literals_are_refused() {
    assert_eq!(decnum_parser("0123"), Err(error(1, 2, Expected::EndOfInput)));
    assert_eq!(decnum_parser("00"), Err(error(1, 2, Expected::EndOfInput)));
    assert_eq!(decnum_parser("12a"), Err(error(2, 3, Expected::EndOfInput)));
    assert_eq!(decnum_parser("a"), Err(error(0, 1, Expected::DecimalLiteral)));
    assert_eq!(decnum_parser(""), Err(error(0, 0, Expected::DecimalLiteral)));
    assert_eq!(decnum_parser("0x1"), Err(error(1, 2, Expected::EndOfInput)));
    assert_eq!(hexnum_parser("0x"), Err(error(0, 1, Expected::HexLiteral)));
    assert_eq!(hexnum_parser("0xg"), Err(error(0, 1, Expected::HexLiteral)));
    assert_eq!(hexnum_parser("x1"), Err(error(0, 1, Expected::HexLiteral)));
    assert_eq!(hexnum_parser("1x1"), Err(error(0, 1, Expected::HexLiteral)));
    assert_eq!(hexnum_parser("0x1g"), Err(error(3, 4, Expected::EndOfInput)));
    assert_eq!(intconst_parser("0x"), Err(error(1, 2, Expected::EndOfInput)));
    assert_eq!(intconst_parser("-1"), Err(error(0, 1, Expected::DecimalLiteral)));
}

// == operators

#[test]
fn assignment_operators() {
    assert_eq!(asnop_parser("="), Ok(AsNop::Equal));
    assert_eq!(asnop_parser("+="), Ok(AsNop::PlusEqual));
    assert_eq!(asnop_parser("-="), Ok(AsNop::MinusEqual));
    assert_eq!(asnop_parser("*="), Ok(AsNop::MultEqual));
    assert_eq!(asnop_parser("/="), Ok(AsNop::DivEqual));
    assert_eq!(asnop_parser("%="), Ok(AsNop::ModEqual));
    assert_eq!(asnop_parser(" %= "), Ok(AsNop::ModEqual));
    assert_eq!(asnop_parser("+ ="), Err(error(0, 1, Expected::AssignOperator)));
    assert_eq!(asnop_parser("+"), Err(error(0, 1, Expected::AssignOperator)));
    assert_eq!(asnop_parser("=="), Err(error(1, 2, Expected::EndOfInput)));
    assert_eq!(asnop_parser(""), Err(error(0, 0, Expected::AssignOperator)));
    assert_eq!(asnop_parser("^="), Err(error(0, 1, Expected::AssignOperator)));
}

#[test]
fn unary_operator() {
    assert_eq!(unop_parser("-"), Ok(UnOperation::Minus));
    assert_eq!(unop_parser(" - "), Ok(UnOperation::Minus));
    assert_eq!(unop_parser("+"), Err(error(0, 1, Expected::UnaryOperator)));
    assert_eq!(unop_parser("--"), Err(error(1, 2, Expected::EndOfInput)));
}

// == expressions

#[test]
fn subtraction_groups_to_the_left() {
    assert_eq!(
        exp_parser("a - b - c"),
        Ok(binop(binop(name("a"), BinOperation::Minus, name("b")), BinOperation::Minus, name("c")))
    );
    assert_eq!(
        exp_parser("a / b % c * d"),
        Ok(binop(
            binop(
                binop(name("a"), BinOperation::Division, name("b")),
                BinOperation::Mod,
                name("c")
            ),
            BinOperation::Multiplication,
            name("d")
        ))
    );
}

#[test]
fn products_bind_stronger_than_sums() {
    assert_eq!(
        exp_parser("1 + 2 * 3"),
        Ok(binop(dec("1"), BinOperation::Plus, binop(dec("2"), BinOperation::Multiplication, dec("3"))))
    );
    assert_eq!(
        exp_parser("1 * 2 + 3"),
        Ok(binop(binop(dec("1"), BinOperation::Multiplication, dec("2")), BinOperation::Plus, dec("3")))
    );
    assert_eq!(
        exp_parser("1 - 2 / 3 - 4"),
        Ok(binop(
            binop(dec("1"), BinOperation::Minus, binop(dec("2"), BinOperation::Division, dec("3"))),
            BinOperation::Minus,
            dec("4")
        ))
    );
}

#[test]
fn unary_minus_binds_stronger_than_products() {
    assert_eq!(
        exp_parser("-a * b"),
        Ok(binop(minus(name("a")), BinOperation::Multiplication, name("b")))
    );
    assert_eq!(
        exp_parser("a * -b"),
        Ok(binop(name("a"), BinOperation::Multiplication, minus(name("b"))))
    );
    assert_eq!(
        exp_parser("a - -b"),
        Ok(binop(name("a"), BinOperation::Minus, minus(name("b"))))
    );
    assert_eq!(exp_parser("a--b"), Ok(binop(name("a"), BinOperation::Minus, minus(name("b")))));
    assert_eq!(exp_parser("- - -1"), Ok(minus(minus(minus(dec("1"))))));
    assert_eq!(exp_parser("-(1)"), Ok(minus(nested(dec("1")))));
}

#[test]
fn parentheses_are_kept_in_the_tree() {
    assert_eq!(
        exp_parser("(1 + 2) * 3"),
        Ok(binop(
            nested(binop(dec("1"), BinOperation::Plus, dec("2"))),
            BinOperation::Multiplication,
            dec("3")
        ))
    );
    assert_eq!(exp_parser("((x))"), Ok(nested(nested(name("x")))));
    assert_eq!(
        exp_parser("a - (b - c)"),
        Ok(binop(
            name("a"),
            BinOperation::Minus,
            nested(binop(name("b"), BinOperation::Minus, name("c")))
        ))
    );
}

#[test]
fn padding_does_not_change_the_tree() {
    let tight = exp_parser("a+b*(c-0x1F)%-d");
    let loose = exp_parser(" \t a \n + \r\n b * ( c - 0x1F ) % - d  ");
    let wide = exp_parser("\u{a0}a\u{2003}+\u{3000}b*(c\u{85}-0x1F)%-\u{2028}d\u{1680}");
    assert!(tight.is_ok());
    assert_eq!(tight, loose);
    assert_eq!(tight, wide);
    assert_eq!(
        parse("int main(){int a=1;a+=2;return a;}"),
        parse("\n int \n main \n ( \n ) \n { \n int \n a \n = \n 1 \n ; \n a \n += \n 2 \n ; \n return \n a \n ; \n } \n")
    );
}

#[test]
fn expression_errors_say_where() {
    assert_eq!(exp_parser(""), Err(error(0, 0, Expected::Expression)));
    assert_eq!(exp_parser("1 +"), Err(error(3, 3, Expected::Expression)));
    assert_eq!(exp_parser("1 + * 2"), Err(error(4, 5, Expected::Expression)));
    assert_eq!(exp_parser("(1 + 2"), Err(error(6, 6, Expected::Symbol(')'))));
    assert_eq!(exp_parser("(1 + 2))"), Err(error(7, 8, Expected::EndOfInput)));
    assert_eq!(exp_parser("1 2"), Err(error(2, 3, Expected::EndOfInput)));
    assert_eq!(exp_parser("a += 1"), Err(error(3, 4, Expected::Expression)));
    assert_eq!(exp_parser("1 + return"), Err(error(4, 5, Expected::Identifier)));
    assert_eq!(exp_parser("x ä"), Err(error(2, 4, Expected::EndOfInput)));
}

// == lvalues, declarations, assignments

#[test]
fn lvalues() {
    assert_eq!(lvalue_parser("x"), Ok(LValue::Ident(Identifier("x"))));
    assert_eq!(
        lvalue_parser(" ( ( x ) ) "),
        Ok(LValue::LValue(Box::new(LValue::LValue(Box::new(LValue::Ident(Identifier("x")))))))
    );
    assert_eq!(lvalue_parser("(x"), Err(error(2, 2, Expected::Symbol(')'))));
    assert_eq!(lvalue_parser("()"), Err(error(1, 2, Expected::Identifier)));
    assert_eq!(lvalue_parser("1"), Err(error(0, 1, Expected::Identifier)));
    assert_eq!(lvalue_parser("int"), Err(error(0, 1, Expected::Identifier)));
}

#[test]
fn declarations() {
    assert_eq!(decl_parser("int x"), Ok(Declaration::Ident(Identifier("x"))));
    assert_eq!(
        decl_parser("int x = 1 + y"),
        Ok(Declaration::IdentExp {
            ident: Identifier("x"),
            exp: binop(dec("1"), BinOperation::Plus, name("y"))
        })
    );
    assert_eq!(decl_parser("int x=x"), Ok(Declaration::IdentExp { ident: Identifier("x"), exp: name("x") }));
    assert_eq!(decl_parser("intx"), Err(error(0, 1, Expected::Word(Word::Int))));
    assert_eq!(decl_parser("int"), Err(error(3, 3, Expected::Identifier)));
    assert_eq!(decl_parser("int int"), Err(error(4, 5, Expected::Identifier)));
    assert_eq!(decl_parser("int x ="), Err(error(7, 7, Expected::Expression)));
    assert_eq!(decl_parser("int x += 1"), Err(error(6, 7, Expected::EndOfInput)));
    assert_eq!(decl_parser("x"), Err(error(0, 1, Expected::Word(Word::Int))));
}

#[test]
fn assignments() {
    assert_eq!(
        simp_parser("x = 1"),
        Ok(SimpleInstruction { lvalue: LValue::Ident(Identifier("x")), asnop: AsNop::Equal, exp: dec("1") })
    );
    assert_eq!(
        simp_parser("(x) %= -y"),
        Ok(SimpleInstruction {
            lvalue: LValue::LValue(Box::new(LValue::Ident(Identifier("x")))),
            asnop: AsNop::ModEqual,
            exp: minus(name("y"))
        })
    );
    assert_eq!(
        simp_parser("x=-1"),
        Ok(SimpleInstruction { lvalue: LValue::Ident(Identifier("x")), asnop: AsNop::Equal, exp: minus(dec("1")) })
    );
    assert_eq!(simp_parser("x 1"), Err(error(2, 3, Expected::AssignOperator)));
    assert_eq!(simp_parser("x ="), Err(error(3, 3, Expected::Expression)));
    assert_eq!(simp_parser("1 = x"), Err(error(0, 1, Expected::Identifier)));
}

// == statements

#[test]
fn each_kind_of_statement() {
    assert_eq!(statement_parser("int x;"), Ok(Statement::Decl(Declaration::Ident(Identifier("x")))));
    assert_eq!(
        statement_parser("x *= 2;"),
        Ok(Statement::Simp(SimpleInstruction {
            lvalue: LValue::Ident(Identifier("x")),
            asnop: AsNop::MultEqual,
            exp: dec("2")
        }))
    );
    assert_eq!(statement_parser("return x;"), Ok(Statement::Return(name("x"))));
    assert_eq!(statement_parser("return(x);"), Ok(Statement::Return(nested(name("x")))));
    assert_eq!(statement_parser("return-x;"), Ok(Statement::Return(minus(name("x")))));
}

#[test]
fn words_are_told_apart_by_their_whole_length() {
    assert_eq!(
        statement_parser("integer = 5;"),
        Ok(Statement::Simp(SimpleInstruction {
            lvalue: LValue::Ident(Identifier("integer")),
            asnop: AsNop::Equal,
            exp: dec("5")
        }))
    );
    assert_eq!(
        statement_parser("returned = 5;"),
        Ok(Statement::Simp(SimpleInstruction {
            lvalue: LValue::Ident(Identifier("returned")),
            asnop: AsNop::Equal,
            exp: dec("5")
        }))
    );
    assert_eq!(statement_parser("return0;"), Err(error(7, 8, Expected::AssignOperator)));
    assert_eq!(statement_parser("intx;"), Err(error(4, 5, Expected::AssignOperator)));
}

#[test]
fn statement_errors_say_where() {
    assert_eq!(statement_parser("int x"), Err(error(5, 5, Expected::Symbol(';'))));
    assert_eq!(statement_parser("return;"), Err(error(6, 7, Expected::Expression)));
    assert_eq!(statement_parser("return 0"), Err(error(8, 8, Expected::Symbol(';'))));
    assert_eq!(statement_parser(";"), Err(error(0, 1, Expected::Identifier)));
    assert_eq!(statement_parser("x;"), Err(error(1, 2, Expected::AssignOperator)));
    assert_eq!(statement_parser("int a 10;"), Err(error(6, 7, Expected::Symbol(';'))));
    assert_eq!(statement_parser("return 0;;"), Err(error(9, 10, Expected::EndOfInput)));
}

#[test]
fn statements_come_in_source_order() {
    assert_eq!(
        statements_parser("int a; a = 1; return a;"),
        Ok(list(vec![
            Statement::Decl(Declaration::Ident(Identifier("a"))),
            Statement::Simp(SimpleInstruction {
                lvalue: LValue::Ident(Identifier("a")),
                asnop: AsNop::Equal,
                exp: dec("1")
            }),
            Statement::Return(name("a")),
        ]))
    );
    assert_eq!(statements_parser("return 0; }"), Err(error(10, 11, Expected::EndOfInput)));
    assert_eq!(statements_parser("return 0; x"), Err(error(11, 11, Expected::AssignOperator)));
}

// == programs

#[test]
fn program_header_is_made_of_tokens() {
    assert_eq!(parse("int main(){}"), Ok(Program(Statements::Empty)));
    assert_eq!(parse(" int\nmain ( )\t{ } "), Ok(Program(Statements::Empty)));
    assert_eq!(parse("intmain(){}"), Err(error(0, 1, Expected::Word(Word::Int))));
    assert_eq!(parse("int main2(){}"), Err(error(4, 5, Expected::Word(Word::Main))));
    assert_eq!(parse("int main{}"), Err(error(8, 9, Expected::Symbol('('))));
    assert_eq!(parse("int main(){} x"), Err(error(13, 14, Expected::EndOfInput)));
    assert_eq!(parse(""), Err(error(0, 0, Expected::Word(Word::Int))));
    assert_eq!(parse("void main(){}"), Err(error(0, 1, Expected::Word(Word::Int))));
}

#[test]
fn program_with_declarations_and_hex_literal() {
    assert_eq!(
        parse("int main() { int a; int b = 0xCAFEBABE; return 0; }"),
        Ok(Program(list(vec![
            Statement::Decl(Declaration::Ident(Identifier("a"))),
            Statement::Decl(Declaration::IdentExp { ident: Identifier("b"), exp: hex("0xCAFEBABE") }),
            Statement::Return(dec("0")),
        ])))
    );
}

#[test]
fn program_without_closing_brace_fails_at_the_end() {
    let code = "int main() { return 0; ";
    assert_eq!(parse(code), Err(error(code.len(), code.len(), Expected::Symbol('}'))));
    let error = parse(code).unwrap_err();
    assert_eq!(error.message(), "expected `}`");
    let diagnostic = error.diagnostic();
    assert_eq!(diagnostic.span, Span { start: 23, end: 23 });
    assert_eq!(diagnostic.message, "expected `}`");
}

#[test]
fn error_spans_count_bytes() {
    let code = "int main() { int \u{2003}a = 1 ; r\u{e9}sultat = 2; }";
    let at = code.find('\u{e9}').unwrap();
    assert_eq!(parse(code), Err(error(at, at + 2, Expected::AssignOperator)));
    assert_eq!(parse("int main() { return 0; } \u{1F600}"), Err(error(25, 29, Expected::EndOfInput)));
}

#[test]
fn every_expectation_has_its_words() {
    let all = [
        (Expected::Word(Word::Int), "expected `int`"),
        (Expected::Word(Word::Main), "expected `main`"),
        (Expected::Word(Word::Return), "expected `return`"),
        (Expected::Symbol('('), "expected `(`"),
        (Expected::Symbol(')'), "expected `)`"),
        (Expected::Symbol('{'), "expected `{`"),
        (Expected::Symbol('}'), "expected `}`"),
        (Expected::Symbol(';'), "expected `;`"),
        (Expected::Symbol('='), "expected `=`"),
        (Expected::Symbol('?'), "expected another symbol"),
        (Expected::Identifier, "expected an identifier that is no reserved word"),
        (Expected::Expression, "expected an expression"),
        (Expected::AssignOperator, "expected an assignment operator"),
        (Expected::UnaryOperator, "expected `-`"),
        (Expected::DecimalLiteral, "expected a decimal literal"),
        (Expected::HexLiteral, "expected a hexadecimal literal"),
        (Expected::EndOfInput, "expected the end of the text"),
    ];
    for (expected, words) in all {
        assert_eq!(expected.description(), words);
        assert_eq!(error(0, 0, expected).message(), words);
    }
}

#[test]
fn trees_can_be_cloned() {
    let program = parse("int main() { int a = (1 + 2) * -3; (a) -= 0x10; return a; }").unwrap();
    assert_eq!(program.clone(), program);
}

#[test]
fn deep_nesting_is_read() {
    let depth = 500;
    let code = format!("{}1{}", "(".repeat(depth), ")".repeat(depth));
    let mut expected = dec("1");
    for _ in 0..depth {
        expected = nested(expected);
    }
    assert_eq!(exp_parser(&code), Ok(expected));
}
