//! The parser: from source text to the tree of [`crate::grammar`].
//!
//! The grammar is written down as spec functions in [`lexical`],
//! [`expression`] and [`statement`]; each function of this module reads one
//! kind of phrase from a whole text and returns exactly what the grammar
//! says of it. White space may stand between any two tokens and around the
//! phrase; whatever else follows the phrase is an error.
//!
//! [`shape`], [`reading`] and [`written`] say what the grammar amounts to,
//! without a word on how a text is gone through: a text is a program with a
//! given tree exactly if the tree is grammatical and the text holds the
//! tokens of the tree in their order, with nothing but white space between
//! them; and every grammatical tree has a text.

pub mod expression;
pub mod lexical;
pub mod reading;
pub mod shape;
pub mod statement;
pub mod written;

use vstd::prelude::*;
use vstd::string::StringExecFns;
use crate::grammar::{
    AsNop,
    Declaration,
    ExpressionView,
    LValueView,
    StatementView,
    Decnum,
    Expression,
    Hexnum,
    Identifier,
    Intconst,
    LValue,
    Program,
    SimpleInstruction,
    Statement,
    Statements,
    UnOperation,
};
use crate::source::{byte_len, byte_offset, lemma_byte_offset_monotonic, Source};
use crate::parser::expression::{additive, parse_additive};
use crate::parser::reading::{
    body_reads,
    lemma_body_is_what_reads,
    lemma_expression_is_what_reads,
    lemma_lvalue_is_what_reads,
    lemma_program_is_what_reads,
    lemma_statement_is_what_reads,
    lvalue_reads,
    program_reads,
    statement_reads,
    text_reads,
};
use crate::parser::shape::{
    grammatical,
    grammatical_lvalue,
    grammatical_statement,
    grammatical_statements,
};
use crate::parser::lexical::{
    decnum,
    hexnum,
    identifier,
    intconst,
    read_decnum,
    read_hexnum,
    read_identifier,
    read_intconst,
    skip_whitespace,
    skip_ws,
    Expected,
    Failure,
    Outcome,
    Word,
};
use crate::parser::statement::{
    asnop,
    declaration,
    lvalue,
    parse_asnop,
    parse_declaration,
    parse_lvalue,
    parse_program,
    parse_simple_instruction,
    parse_statement,
    parse_statements,
    parse_unop,
    program,
    simple_instruction,
    statement,
    statements,
    unop,
};

verus! {

/// A range of bytes of the source text, `start` included and `end` not.
#[derive(Debug, Clone, Copy, PartialEq, Eq)]
pub struct Span {
    pub start: usize,
    pub end: usize,
}

/// Why a text could not be parsed: the bytes of the first character that
/// does not fit (an empty range at the end of the text), and what was
/// expected in its place.
#[derive(Debug, Clone, Copy, PartialEq, Eq)]
pub struct ParseError {
    pub span: Span,
    pub expected: Expected,
}

impl Expected {
    /// The expectation in words.
    pub open spec fn describe(self) -> Seq<char> {
        match self {
            Expected::Word(Word::Int) => "expected `int`"@,
            Expected::Word(Word::Main) => "expected `main`"@,
            Expected::Word(Word::Return) => "expected `return`"@,
            Expected::Symbol(c) => if c == '(' {
                "expected `(`"@
            } else if c == ')' {
                "expected `)`"@
            } else if c == '{' {
                "expected `{`"@
            } else if c == '}' {
                "expected `}`"@
            } else if c == ';' {
                "expected `;`"@
            } else if c == '=' {
                "expected `=`"@
            } else {
                "expected another symbol"@
            },
            Expected::Identifier => "expected an identifier that is no reserved word"@,
            Expected::Expression => "expected an expression"@,
            Expected::AssignOperator => "expected an assignment operator"@,
            Expected::UnaryOperator => "expected `-`"@,
            Expected::DecimalLiteral => "expected a decimal literal"@,
            Expected::HexLiteral => "expected a hexadecimal literal"@,
            Expected::EndOfInput => "expected the end of the text"@,
        }
    }

    /// The expectation in words.
    pub fn description(self) -> (r: &'static str)
        ensures
            r@ == self.describe(),
    {
        match self {
            Expected::Word(Word::Int) => "expected `int`",
            Expected::Word(Word::Main) => "expected `main`",
            Expected::Word(Word::Return) => "expected `return`",
            Expected::Symbol(c) => if c == '(' {
                "expected `(`"
            } else if c == ')' {
                "expected `)`"
            } else if c == '{' {
                "expected `{`"
            } else if c == '}' {
                "expected `}`"
            } else if c == ';' {
                "expected `;`"
            } else if c == '=' {
                "expected `=`"
            } else {
                "expected another symbol"
            },
            Expected::Identifier => "expected an identifier that is no reserved word",
            Expected::Expression => "expected an expression",
            Expected::AssignOperator => "expected an assignment operator",
            Expected::UnaryOperator => "expected `-`",
            Expected::DecimalLiteral => "expected a decimal literal",
            Expected::HexLiteral => "expected a hexadecimal literal",
            Expected::EndOfInput => "expected the end of the text",
        }
    }
}

/// The bytes of the character at index `at` of `s`; the empty range at the
/// end of the text where `at` is no index of `s`.
pub open spec fn char_span(s: Seq<char>, at: int) -> Span {
    let from = if 0 <= at <= s.len() {
        at
    } else {
        s.len() as int
    };
    let to = if from < s.len() {
        from + 1
    } else {
        from
    };
    Span { start: byte_offset(s, from) as usize, end: byte_offset(s, to) as usize }
}

impl ParseError {
    /// The error for a text `s` that stops fitting at character `at`, where
    /// `expected` was looked for.
    pub open spec fn at(s: Seq<char>, at: int, expected: Expected) -> ParseError {
        ParseError { span: char_span(s, at), expected }
    }

    /// What was expected, in words.
    pub fn message(&self) -> (r: String)
        ensures
            r@ == self.expected.describe(),
    {
        String::from_str(self.expected.description())
    }
}

/// What becomes of an outcome when the phrase has to fill the whole text:
/// behind an accepted value only white space may follow.
pub open spec fn to_end<T>(o: Outcome<T>, s: Seq<char>) -> Outcome<T> {
    match o {
        Outcome::Accept { value, next } => if skip_ws(s, next) >= s.len() {
            Outcome::Accept { value, next: s.len() as int }
        } else {
            Outcome::Reject { at: skip_ws(s, next), expected: Expected::EndOfInput }
        },
        Outcome::Reject { at, expected } => Outcome::Reject { at, expected },
    }
}

/// Whether `r` hands out what the grammar made of the text `s`: the accepted
/// value, or the error for the place of the rejection.
pub open spec fn delivers<T: View>(r: Result<T, ParseError>, o: Outcome<T::V>, s: Seq<char>)
    -> bool {
    match r {
        Ok(v) => o matches Outcome::Accept { value, .. } && value == v@,
        Err(e) => o matches Outcome::Reject { at, expected } && e == ParseError::at(
            s,
            at,
            expected,
        ),
    }
}

/// The error of a program that is refused lies inside the text: it spans
/// the bytes of one character of the text, or is empty at the end of the
/// text. (A text in memory is never longer than the largest `usize`.)
pub proof fn lemma_error_lies_in_text(s: Seq<char>)
    requires
        byte_len(s) <= usize::MAX,
    ensures
        to_end(program(s, 0), s) matches Outcome::Reject { at, expected } ==> {
            &&& 0 <= at <= s.len()
            &&& char_span(s, at).start == byte_offset(s, at)
            &&& char_span(s, at).start <= char_span(s, at).end <= byte_len(s)
            &&& at == s.len() ==> char_span(s, at).start == byte_len(s) && char_span(s, at).end
                == byte_len(s)
        },
{
    crate::parser::statement::lemma_program_advances(s, 0);
    if let Outcome::Accept { value, next } = program(s, 0) {
        crate::parser::lexical::lemma_skip_ws(s, next);
    }
    if let Outcome::Reject { at, expected } = to_end(program(s, 0), s) {
        let to = if at < s.len() {
            at + 1
        } else {
            at
        };
        lemma_byte_offset_monotonic(s, at, to);
    }
}

/// The error for character `at` of the source.
pub fn error_at(src: &Source, at: usize, expected: Expected) -> (r: ParseError)
    ensures
        r == ParseError::at(src@, at as int, expected),
        r.span.start <= r.span.end,
{
    let n = src.len();
    let from = if at <= n {
        at
    } else {
        n
    };
    let to = if from < n {
        from + 1
    } else {
        from
    };
    proof {
        lemma_byte_offset_monotonic(src@, from as int, to as int);
    }
    ParseError { span: Span { start: src.byte_offset(from), end: src.byte_offset(to) }, expected }
}

/// Closes a parse that has to fill the whole text.
fn finish<T: View>(src: &Source, found: Result<(T, usize), Failure>, Ghost(o): Ghost<
    Outcome<T::V>,
>) -> (r: Result<T, ParseError>)
    requires
        crate::parser::lexical::agrees(found, o),
        found matches Ok((_, next)) ==> next <= src@.len(),
    ensures
        delivers(r, to_end(o, src@), src@),
{
    match found {
        Ok((value, next)) => {
            let end = skip_whitespace(src, next);
            if end >= src.len() {
                Ok(value)
            } else {
                Err(error_at(src, end, Expected::EndOfInput))
            }
        },
        Err(f) => Err(error_at(src, f.at, f.expected)),
    }
}

/// Parses a whole program.
///
/// Returns the one grammatical tree that `code` reads as, if there is one:
/// the tree that the grammar [`program`] gives for `code`. Else returns the
/// place where `code` stops being a program.
pub fn parse<'a>(code: &'a str) -> (r: Result<Program<'a>, ParseError>)
    ensures
        delivers(r, to_end(program(code@, 0), code@), code@),
        r matches Ok(tree) ==> grammatical_statements(tree@) && program_reads(code@, tree@),
        r is Err ==> forall|p: Seq<StatementView>|
            !(grammatical_statements(p) && #[trigger] program_reads(code@, p)),
{
    let src = Source::new(code);
    let found = parse_program(&src, 0);
    let r = finish(&src, found, Ghost(program(code@, 0)));
    proof {
        match &r {
            Ok(tree) => {
                lemma_program_is_what_reads(code@, tree@);
            },
            Err(_) => {
                assert forall|p: Seq<StatementView>|
                    !(grammatical_statements(p) && #[trigger] program_reads(code@, p)) by {
                    lemma_program_is_what_reads(code@, p);
                }
            },
        }
    }
    r
}

/// Parses statements that fill `code`: returns the grammatical statements
/// that `code` reads as, if there are such.
pub fn statements_parser<'a>(code: &'a str) -> (r: Result<Statements<'a>, ParseError>)
    ensures
        delivers(r, to_end(statements(code@, 0), code@), code@),
        r matches Ok(tree) ==> grammatical_statements(tree@) && body_reads(code@, tree@),
        r is Err ==> forall|t: Seq<StatementView>|
            !(grammatical_statements(t) && #[trigger] body_reads(code@, t)),
{
    let src = Source::new(code);
    let found = parse_statements(&src, 0);
    let r = finish(&src, found, Ghost(statements(code@, 0)));
    proof {
        match &r {
            Ok(tree) => {
                lemma_body_is_what_reads(code@, tree@);
            },
            Err(_) => {
                assert forall|t: Seq<StatementView>|
                    !(grammatical_statements(t) && #[trigger] body_reads(code@, t)) by {
                    lemma_body_is_what_reads(code@, t);
                }
            },
        }
    }
    r
}

/// Parses one statement, with its `;`, that fills `code`: returns the one
/// grammatical statement that `code` reads as, if there is one.
pub fn statement_parser<'a>(code: &'a str) -> (r: Result<Statement<'a>, ParseError>)
    ensures
        delivers(r, to_end(statement(code@, 0), code@), code@),
        r matches Ok(tree) ==> grammatical_statement(tree@) && statement_reads(code@, tree@),
        r is Err ==> forall|t: StatementView|
            !(grammatical_statement(t) && #[trigger] statement_reads(code@, t)),
{
    let src = Source::new(code);
    let found = parse_statement(&src, 0);
    let r = finish(&src, found, Ghost(statement(code@, 0)));
    proof {
        match &r {
            Ok(tree) => {
                lemma_statement_is_what_reads(code@, tree@);
            },
            Err(_) => {
                assert forall|t: StatementView|
                    !(grammatical_statement(t) && #[trigger] statement_reads(code@, t)) by {
                    lemma_statement_is_what_reads(code@, t);
                }
            },
        }
    }
    r
}

/// Parses a declaration (without `;`) that fills `code`.
pub fn decl_parser<'a>(code: &'a str) -> (r: Result<Declaration<'a>, ParseError>)
    ensures
        delivers(r, to_end(declaration(code@, 0), code@), code@),
{
    let src = Source::new(code);
    let found = parse_declaration(&src, 0);
    finish(&src, found, Ghost(declaration(code@, 0)))
}

/// Parses an assignment (without `;`) that fills `code`.
pub fn simp_parser<'a>(code: &'a str) -> (r: Result<SimpleInstruction<'a>, ParseError>)
    ensures
        delivers(r, to_end(simple_instruction(code@, 0), code@), code@),
{
    let src = Source::new(code);
    let found = parse_simple_instruction(&src, 0);
    finish(&src, found, Ghost(simple_instruction(code@, 0)))
}

/// Parses an lvalue that fills `code`: returns the one grammatical lvalue
/// that `code` reads as, if there is one.
pub fn lvalue_parser<'a>(code: &'a str) -> (r: Result<LValue<'a>, ParseError>)
    ensures
        delivers(r, to_end(lvalue(code@, 0), code@), code@),
        r matches Ok(tree) ==> grammatical_lvalue(tree@) && lvalue_reads(code@, tree@),
        r is Err ==> forall|t: LValueView|
            !(grammatical_lvalue(t) && #[trigger] lvalue_reads(code@, t)),
{
    let src = Source::new(code);
    let found = parse_lvalue(&src, 0);
    let r = finish(&src, found, Ghost(lvalue(code@, 0)));
    proof {
        match &r {
            Ok(tree) => {
                lemma_lvalue_is_what_reads(code@, tree@);
            },
            Err(_) => {
                assert forall|t: LValueView|
                    !(grammatical_lvalue(t) && #[trigger] lvalue_reads(code@, t)) by {
                    lemma_lvalue_is_what_reads(code@, t);
                }
            },
        }
    }
    r
}

/// Parses an expression that fills `code`: returns the one grammatical
/// tree that `code` reads as, if there is one.
pub fn exp_parser<'a>(code: &'a str) -> (r: Result<Expression<'a>, ParseError>)
    ensures
        delivers(r, to_end(additive(code@, 0), code@), code@),
        r matches Ok(tree) ==> grammatical(tree@) && text_reads(code@, tree@),
        r is Err ==> forall|e: ExpressionView| !(grammatical(e) && #[trigger] text_reads(code@, e)),
{
    let src = Source::new(code);
    let found = parse_additive(&src, 0);
    let r = finish(&src, found, Ghost(additive(code@, 0)));
    proof {
        match &r {
            Ok(tree) => {
                lemma_expression_is_what_reads(code@, tree@);
            },
            Err(_) => {
                assert forall|e: ExpressionView|
                    !(grammatical(e) && #[trigger] text_reads(code@, e)) by {
                    lemma_expression_is_what_reads(code@, e);
                }
            },
        }
    }
    r
}

/// Parses an integer literal that fills `code`.
pub fn intconst_parser<'a>(code: &'a str) -> (r: Result<Intconst<'a>, ParseError>)
    ensures
        delivers(r, to_end(intconst(code@, 0), code@), code@),
{
    let src = Source::new(code);
    let found = read_intconst(&src, 0);
    finish(&src, found, Ghost(intconst(code@, 0)))
}

/// Parses the unary operator that fills `code`.
pub fn unop_parser(code: &str) -> (r: Result<UnOperation, ParseError>)
    ensures
        delivers(r, to_end(unop(code@, 0), code@), code@),
{
    let src = Source::new(code);
    let found = parse_unop(&src, 0);
    finish(&src, found, Ghost(unop(code@, 0)))
}

/// Parses an assignment operator that fills `code`.
pub fn asnop_parser(code: &str) -> (r: Result<AsNop, ParseError>)
    ensures
        delivers(r, to_end(asnop(code@, 0), code@), code@),
{
    let src = Source::new(code);
    let found = parse_asnop(&src, 0);
    finish(&src, found, Ghost(asnop(code@, 0)))
}

/// Parses an identifier that fills `code`.
pub fn ident_parser<'a>(code: &'a str) -> (r: Result<Identifier<'a>, ParseError>)
    ensures
        delivers(r, to_end(identifier(code@, 0), code@), code@),
{
    let src = Source::new(code);
    let found = read_identifier(&src, 0);
    finish(&src, found, Ghost(identifier(code@, 0)))
}

/// Parses a decimal literal that fills `code`.
pub fn decnum_parser<'a>(code: &'a str) -> (r: Result<Decnum<'a>, ParseError>)
    ensures
        delivers(r, to_end(decnum(code@, 0), code@), code@),
{
    let src = Source::new(code);
    let found = read_decnum(&src, 0);
    finish(&src, found, Ghost(decnum(code@, 0)))
}

/// Parses a hexadecimal literal that fills `code`.
pub fn hexnum_parser<'a>(code: &'a str) -> (r: Result<Hexnum<'a>, ParseError>)
    ensures
        delivers(r, to_end(hexnum(code@, 0), code@), code@),
{
    let src = Source::new(code);
    let found = read_hexnum(&src, 0);
    finish(&src, found, Ghost(hexnum(code@, 0)))
}

} // verus!
