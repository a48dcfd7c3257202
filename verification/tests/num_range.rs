use l1_frontend::analyzer::num_range::{
    analyze, analyze_decnum, analyze_exp, analyze_hexnum, analyze_intconst, analyze_statement,
    parse_u32, to_digit, NumberError, Radix,
};
use l1_frontend::grammar::{
    BinOperation, Declaration, Decnum, Expression, Hexnum, Identifier, Intconst, Program,
    Statement, Statements, UnOperation,
};

// == analyze_decnum
#[test]
fn analyze_decnum_min() {
    assert!(analyze_decnum(&Decnum("0")).is_ok());
}

#[test]
fn analyze_decnum_max() {
    assert!(analyze_decnum(&Decnum(&format!("{}", 1u32 << 31))).is_ok());
}

#[test]
fn analyze_decnum_max_exceed() {
    assert!(analyze_decnum(&Decnum(&format!("{}", (1u32 << 31) + 1))).is_err());
}

// == analyze_hexnum
#[test]
fn analyze_hexnum_min() {
    assert!(analyze_hexnum(&Hexnum("0")).is_ok());
}

#[test]
fn analyze_hexnum_max() {
    assert!(analyze_hexnum(&Hexnum("ffffffff")).is_ok());
}

#[test]
fn analyze_hexnum_max_exceed() {
    assert!(analyze_hexnum(&Hexnum("ffffffff0")).is_err());
}

#[test]
fn decnum_rejects_what_is_no_number() {
    assert!(analyze_decnum(&Decnum("")).is_err());
    assert!(analyze_decnum(&Decnum("12a")).is_err());
    assert!(analyze_decnum(&Decnum("-1")).is_err());
    assert!(analyze_decnum(&Decnum(" 1")).is_err());
    assert!(analyze_decnum(&Decnum("+")).is_err());
    assert!(analyze_decnum(&Decnum("1_000")).is_err());
    assert!(analyze_decnum(&Decnum("ff")).is_err());
}

#[test]
fn decnum_takes_a_plus_and_leading_zeros() {
    assert!(analyze_decnum(&Decnum("+5")).is_ok());
    assert!(analyze_decnum(&Decnum("0000000000000002147483648")).is_ok());
    assert!(analyze_decnum(&Decnum("0000000000000002147483649")).is_err());
}

#[test]
fn decnum_rejects_what_overflows() {
    assert!(analyze_decnum(&Decnum("4294967295")).is_err());
    assert!(analyze_decnum(&Decnum("4294967296")).is_err());
    assert!(analyze_decnum(&Decnum("99999999999999999999999999999999")).is_err());
}

#[test]
fn hexnum_with_and_without_prefix() {
    assert!(analyze_hexnum(&Hexnum("0xCAFEBABE")).is_ok());
    assert!(analyze_hexnum(&Hexnum("0XcafeBABE")).is_ok());
    assert!(analyze_hexnum(&Hexnum("0xFFFFFFFF")).is_ok());
    assert!(analyze_hexnum(&Hexnum("0x100000000")).is_err());
    assert!(analyze_hexnum(&Hexnum("0x000000001")).is_ok());
    assert!(analyze_hexnum(&Hexnum("0x")).is_err());
    assert!(analyze_hexnum(&Hexnum("")).is_err());
    assert!(analyze_hexnum(&Hexnum("0xg")).is_err());
    assert!(analyze_hexnum(&Hexnum("12")).is_ok());
}

#[test]
fn parse_u32_gives_the_value() {
    assert_eq!(parse_u32("0", Radix::Decimal), Ok(0));
    assert_eq!(parse_u32("42", Radix::Decimal), Ok(42));
    assert_eq!(parse_u32("+42", Radix::Decimal), Ok(42));
    assert_eq!(parse_u32("4294967295", Radix::Decimal), Ok(4294967295));
    assert_eq!(parse_u32("ff", Radix::Hexadecimal), Ok(255));
    assert_eq!(parse_u32("FF", Radix::Hexadecimal), Ok(255));
    assert_eq!(parse_u32("CAFEBABE", Radix::Hexadecimal), Ok(0xCAFEBABE));
    assert_eq!(parse_u32("0010", Radix::Hexadecimal), Ok(16));
}

#[test]
fn parse_u32_names_the_first_problem() {
    assert_eq!(parse_u32("", Radix::Decimal), Err(NumberError::Empty));
    assert_eq!(parse_u32("+", Radix::Decimal), Err(NumberError::InvalidDigit));
    assert_eq!(parse_u32("12x", Radix::Decimal), Err(NumberError::InvalidDigit));
    assert_eq!(parse_u32("a", Radix::Decimal), Err(NumberError::InvalidDigit));
    assert_eq!(parse_u32("4294967296", Radix::Decimal), Err(NumberError::Overflow));
    assert_eq!(parse_u32("4294967295x", Radix::Decimal), Err(NumberError::InvalidDigit));
    assert_eq!(parse_u32("42949672950x", Radix::Decimal), Err(NumberError::Overflow));
    assert_eq!(parse_u32("100000000", Radix::Hexadecimal), Err(NumberError::Overflow));
}

#[test]
fn parse_u32_agrees_with_the_standard_library() {
    let texts = [
        "", "+", "-", "0", "+0", "-0", "7", "007", "2147483648", "4294967295", "4294967296",
        "42949672950", "12a", "a12", "ff", "FFFFFFFF", "100000000", "+ff", "0x10", " 1", "1 ",
        "१२", "1.0",
    ];
    for text in texts {
        assert_eq!(parse_u32(text, Radix::Decimal).ok(), text.parse::<u32>().ok(), "{:?} in base 10", text);
        assert_eq!(
            parse_u32(text, Radix::Hexadecimal).ok(),
            u32::from_str_radix(text, 16).ok(),
            "{:?} in base 16",
            text
        );
    }
}

#[test]
fn number_errors_read_as_the_standard_library_words_them() {
    assert_eq!(
        NumberError::Empty.description(),
        format!("{}", "".parse::<u32>().unwrap_err())
    );
    assert_eq!(
        NumberError::InvalidDigit.description(),
        format!("{}", "x".parse::<u32>().unwrap_err())
    );
    assert_eq!(
        NumberError::Overflow.description(),
        format!("{}", "4294967296".parse::<u32>().unwrap_err())
    );
}

#[test]
fn to_digit_knows_both_bases() {
    assert_eq!(to_digit('0', Radix::Decimal), Some(0));
    assert_eq!(to_digit('9', Radix::Decimal), Some(9));
    assert_eq!(to_digit('a', Radix::Decimal), None);
    assert_eq!(to_digit('a', Radix::Hexadecimal), Some(10));
    assert_eq!(to_digit('F', Radix::Hexadecimal), Some(15));
    assert_eq!(to_digit('g', Radix::Hexadecimal), None);
    assert_eq!(to_digit('/', Radix::Hexadecimal), None);
    assert_eq!(to_digit(':', Radix::Hexadecimal), None);
}

fn dec(text: &str) -> Expression<'_> {
    Expression::Intconst(Intconst::Decnum(Decnum(text)))
}

fn hex(text: &str) -> Expression<'_> {
    Expression::Intconst(Intconst::Hexnum(Hexnum(text)))
}

#[test]
fn expressions_are_searched_to_the_bottom() {
    let deep = Expression::Binop {
        left: Box::new(dec("1")),
        op: BinOperation::Plus,
        right: Box::new(Expression::NestedExp(Box::new(Expression::Unop {
            op: UnOperation::Minus,
            right: Box::new(dec("2147483649")),
        }))),
    };
    assert!(analyze_exp(&deep).is_err());
    let fine = Expression::Binop {
        left: Box::new(hex("0xffffffff")),
        op: BinOperation::Mod,
        right: Box::new(Expression::Unop {
            op: UnOperation::Minus,
            right: Box::new(dec("2147483648")),
        }),
    };
    assert!(analyze_exp(&fine).is_ok());
    assert!(analyze_exp(&Expression::Ident(Identifier("x"))).is_ok());
    assert!(analyze_intconst(&Intconst::Decnum(Decnum("2147483649"))).is_err());
}

#[test]
fn every_statement_is_searched() {
    let good = Statement::Return(dec("0"));
    let bad = Statement::Decl(Declaration::IdentExp {
        ident: Identifier("x"),
        exp: dec("2147483649"),
    });
    assert!(analyze_statement(&good).is_ok());
    assert!(analyze_statement(&bad).is_err());
    let program = Program(Statements::Statement {
        current: good.clone(),
        next: Box::new(Statements::Statement {
            current: bad,
            next: Box::new(Statements::Statement {
                current: good,
                next: Box::new(Statements::Empty),
            }),
        }),
    });
    assert!(analyze(&program).is_err());
    assert!(analyze(&Program(Statements::Empty)).is_ok());
}

#[test]
fn bases() {
    assert_eq!(Radix::Decimal.value(), 10);
    assert_eq!(Radix::Hexadecimal.value(), 16);
}
