//! The grammar of statements and of the program around them, and the
//! functions that read them.

use vstd::prelude::*;
use crate::grammar::{
    AsNop,
    Declaration,
    DeclarationView,
    ExpressionView,
    LValue,
    LValueView,
    Program,
    SimpleInstruction,
    SimpleInstructionView,
    Statement,
    StatementView,
    Statements,
    UnOperation,
};
use crate::source::Source;
use crate::parser::expression::{additive, lemma_expression_advances, parse_additive};
use crate::parser::lexical::{
    agrees,
    identifier,
    keyword,
    lemma_skip_ws,
    lemma_tokens_advance,
    read_identifier,
    read_keyword,
    read_symbol,
    scan_word,
    skip_whitespace,
    skip_ws,
    spells,
    symbol,
    word_at,
    Expected,
    Failure,
    Outcome,
    Word,
};

verus! {

/// An assignable place: an identifier, or an lvalue in parentheses.
pub open spec fn lvalue(s: Seq<char>, i: int) -> Outcome<LValueView>
    decreases s.len() - i,
{
    let j = skip_ws(s, i);
    if 0 <= i && j < s.len() && s[j] == '(' {
        proof {
            lemma_skip_ws(s, i);
        }
        lvalue(s, j + 1).and_then(
            |inner: LValueView, next: int|
                symbol(s, next, ')').with(|u: ()| LValueView::LValue(Box::new(inner))),
        )
    } else {
        identifier(s, i).with(|name: Seq<char>| LValueView::Ident(name))
    }
}

/// The assignment operator that `c` followed by `=` stands for.
pub open spec fn compound_op(c: char) -> Option<AsNop> {
    if c == '+' {
        Some(AsNop::PlusEqual)
    } else if c == '-' {
        Some(AsNop::MinusEqual)
    } else if c == '*' {
        Some(AsNop::MultEqual)
    } else if c == '/' {
        Some(AsNop::DivEqual)
    } else if c == '%' {
        Some(AsNop::ModEqual)
    } else {
        None
    }
}

/// An assignment operator: `=`, or one of `+ - * / %` with `=` right behind
/// it.
pub open spec fn asnop(s: Seq<char>, i: int) -> Outcome<AsNop> {
    let j = skip_ws(s, i);
    if 0 <= j < s.len() && s[j] == '=' {
        Outcome::Accept { value: AsNop::Equal, next: j + 1 }
    } else if 0 <= j && j + 1 < s.len() && compound_op(s[j]) is Some && s[j + 1] == '=' {
        Outcome::Accept { value: compound_op(s[j])->0, next: j + 2 }
    } else {
        Outcome::Reject { at: j, expected: Expected::AssignOperator }
    }
}

/// The unary operator `-`.
pub open spec fn unop(s: Seq<char>, i: int) -> Outcome<UnOperation> {
    let j = skip_ws(s, i);
    if 0 <= j < s.len() && s[j] == '-' {
        Outcome::Accept { value: UnOperation::Minus, next: j + 1 }
    } else {
        Outcome::Reject { at: j, expected: Expected::UnaryOperator }
    }
}

/// A declaration: `int`, an identifier and, where a `=` follows, the
/// expression behind it.
pub open spec fn declaration(s: Seq<char>, i: int) -> Outcome<DeclarationView> {
    keyword(s, i, Word::Int).and_then(
        |u: (), a: int|
            identifier(s, a).and_then(
                |ident: Seq<char>, b: int|
                    match symbol(s, b, '=') {
                        Outcome::Accept { value, next } => additive(s, next).with(
                            |exp: ExpressionView| DeclarationView::IdentExp { ident, exp },
                        ),
                        Outcome::Reject { .. } => Outcome::Accept {
                            value: DeclarationView::Ident(ident),
                            next: b,
                        },
                    },
            ),
    )
}

/// An assignment: an lvalue, an assignment operator, an expression.
pub open spec fn simple_instruction(s: Seq<char>, i: int) -> Outcome<SimpleInstructionView> {
    lvalue(s, i).and_then(
        |lvalue: LValueView, a: int|
            asnop(s, a).and_then(
                |asnop: AsNop, b: int|
                    additive(s, b).with(
                        |exp: ExpressionView| SimpleInstructionView { lvalue, asnop, exp },
                    ),
            ),
    )
}

/// A statement, with the `;` that ends it: a declaration where the word
/// `int` stands first, a return where the word `return` does, else an
/// assignment.
pub open spec fn statement(s: Seq<char>, i: int) -> Outcome<StatementView> {
    let j = skip_ws(s, i);
    if word_at(s, j) == Word::Int.text() {
        declaration(s, i).and_then(
            |d: DeclarationView, a: int|
                symbol(s, a, ';').with(|u: ()| StatementView::Decl(d)),
        )
    } else if word_at(s, j) == Word::Return.text() {
        keyword(s, i, Word::Return).and_then(
            |u: (), a: int|
                additive(s, a).and_then(
                    |e: ExpressionView, b: int|
                        symbol(s, b, ';').with(|u: ()| StatementView::Return(e)),
                ),
        )
    } else {
        simple_instruction(s, i).and_then(
            |simp: SimpleInstructionView, a: int|
                symbol(s, a, ';').with(|u: ()| StatementView::Simp(simp)),
        )
    }
}

/// Whether the statements that start at `i` end there: nothing but white
/// space is left, or a `}` comes next.
pub open spec fn body_ends(s: Seq<char>, i: int) -> bool {
    skip_ws(s, i) >= s.len() || s[skip_ws(s, i)] == '}'
}

/// Statements, in source order, up to the end of the text or the first `}`
/// that stands where a statement would start. The comparison of positions
/// serves only to show that the definition is well-founded.
pub open spec fn statements(s: Seq<char>, i: int) -> Outcome<Seq<StatementView>>
    decreases s.len() - i,
{
    if i < 0 || body_ends(s, i) {
        Outcome::Accept { value: Seq::empty(), next: i }
    } else {
        let first = statement(s, i);
        if first.ends_within(i + 1, s) {
            statements(s, first->next).with(|rest: Seq<StatementView>| seq![first->value] + rest)
        } else {
            first.with(|st: StatementView| seq![st])
        }
    }
}

/// A program: `int main ( ) {`, statements, `}`.
pub open spec fn program(s: Seq<char>, i: int) -> Outcome<Seq<StatementView>> {
    keyword(s, i, Word::Int).and_then(
        |u: (), a: int|
            keyword(s, a, Word::Main).and_then(
                |u: (), b: int|
                    symbol(s, b, '(').and_then(
                        |u: (), c: int|
                            symbol(s, c, ')').and_then(
                                |u: (), d: int|
                                    symbol(s, d, '{').and_then(
                                        |u: (), e: int|
                                            statements(s, e).and_then(
                                                |body: Seq<StatementView>, f: int|
                                                    symbol(s, f, '}').with(|u: ()| body),
                                            ),
                                    ),
                            ),
                    ),
            ),
    )
}

/// An lvalue that is read at `i` ends behind `i`, and a rejection lies at
/// or behind `i`; both inside the text.
pub proof fn lemma_lvalue_advances(s: Seq<char>, i: int)
    requires
        0 <= i <= s.len(),
    ensures
        lvalue(s, i).advances(i, s),
    decreases s.len() - i,
{
    lemma_skip_ws(s, i);
    lemma_tokens_advance(s, i);
    let j = skip_ws(s, i);
    if j < s.len() && s[j] == '(' {
        lemma_lvalue_advances(s, j + 1);
        match lvalue(s, j + 1) {
            Outcome::Accept { value, next } => {
                lemma_tokens_advance(s, next);
            },
            Outcome::Reject { .. } => {},
        }
    }
}

/// What [`lemma_lvalue_advances`] says, for the operators, for a
/// declaration, an assignment and a statement.
pub proof fn lemma_statement_advances(s: Seq<char>, i: int)
    requires
        0 <= i <= s.len(),
    ensures
        asnop(s, i).advances(i, s),
        unop(s, i).advances(i, s),
        declaration(s, i).advances(i, s),
        simple_instruction(s, i).advances(i, s),
        statement(s, i).advances(i, s),
{
    lemma_skip_ws(s, i);
    lemma_tokens_advance(s, i);
    lemma_lvalue_advances(s, i);
    assert(declaration(s, i).advances(i, s)) by {
        if let Outcome::Accept { value, next: a } = keyword(s, i, Word::Int) {
            lemma_tokens_advance(s, a);
            if let Outcome::Accept { value: ident, next: b } = identifier(s, a) {
                lemma_tokens_advance(s, b);
                if let Outcome::Accept { value, next: c } = symbol(s, b, '=') {
                    lemma_expression_advances(s, c);
                }
            }
        }
    }
    assert(simple_instruction(s, i).advances(i, s)) by {
        if let Outcome::Accept { value, next: a } = lvalue(s, i) {
            lemma_skip_ws(s, a);
            if let Outcome::Accept { value, next: b } = asnop(s, a) {
                lemma_expression_advances(s, b);
            }
        }
    }
    assert(statement(s, i).advances(i, s)) by {
        if let Outcome::Accept { value, next: a } = declaration(s, i) {
            lemma_tokens_advance(s, a);
        }
        if let Outcome::Accept { value, next: a } = simple_instruction(s, i) {
            lemma_tokens_advance(s, a);
        }
        if let Outcome::Accept { value, next: a } = keyword(s, i, Word::Return) {
            lemma_expression_advances(s, a);
            if let Outcome::Accept { value, next: b } = additive(s, a) {
                lemma_tokens_advance(s, b);
            }
        }
    }
}

/// Statements that are read at `i` end at or behind `i`, and a rejection
/// lies at or behind `i`; both inside the text. The comparison of positions
/// in [`statements`] always holds.
pub proof fn lemma_statements_advance(s: Seq<char>, i: int)
    requires
        0 <= i <= s.len(),
    ensures
        statements(s, i) matches Outcome::Accept { next, .. } ==> i <= next <= s.len(),
        statements(s, i) matches Outcome::Reject { at, .. } ==> i <= at <= s.len(),
        !body_ends(s, i) ==> (statement(s, i) is Accept ==> statement(s, i).ends_within(i + 1, s)),
    decreases s.len() - i,
{
    lemma_statement_advances(s, i);
    if !body_ends(s, i) {
        let first = statement(s, i);
        if first.ends_within(i + 1, s) {
            lemma_statements_advance(s, first->next);
        }
    }
}

/// A program that is read at `i` ends behind `i`, and a rejection lies at
/// or behind `i`; both inside the text.
pub proof fn lemma_program_advances(s: Seq<char>, i: int)
    requires
        0 <= i <= s.len(),
    ensures
        program(s, i).advances(i, s),
{
    lemma_tokens_advance(s, i);
    if let Outcome::Accept { value, next: a } = keyword(s, i, Word::Int) {
        lemma_tokens_advance(s, a);
        if let Outcome::Accept { value, next: b } = keyword(s, a, Word::Main) {
            lemma_tokens_advance(s, b);
            if let Outcome::Accept { value, next: c } = symbol(s, b, '(') {
                lemma_tokens_advance(s, c);
                if let Outcome::Accept { value, next: d } = symbol(s, c, ')') {
                    lemma_tokens_advance(s, d);
                    if let Outcome::Accept { value, next: e } = symbol(s, d, '{') {
                        lemma_statements_advance(s, e);
                        if let Outcome::Accept { value, next: f } = statements(s, e) {
                            lemma_tokens_advance(s, f);
                        }
                    }
                }
            }
        }
    }
}

/// A program is read where its words, its symbols and its body are read
/// one behind the other.
pub proof fn lemma_program_of_parts(
    s: Seq<char>,
    i: int,
    a: int,
    b: int,
    c: int,
    d: int,
    e: int,
    f: int,
    g: int,
    body: Seq<StatementView>,
)
    requires
        keyword(s, i, Word::Int) == (Outcome::Accept { value: (), next: a }),
        keyword(s, a, Word::Main) == (Outcome::Accept { value: (), next: b }),
        symbol(s, b, '(') == (Outcome::Accept { value: (), next: c }),
        symbol(s, c, ')') == (Outcome::Accept { value: (), next: d }),
        symbol(s, d, '{') == (Outcome::Accept { value: (), next: e }),
        statements(s, e) == (Outcome::Accept { value: body, next: f }),
        symbol(s, f, '}') == (Outcome::Accept { value: (), next: g }),
    ensures
        program(s, i) == (Outcome::Accept { value: body, next: g }),
{
}

/// The views of `v`, in order.
pub open spec fn views(v: Seq<Statement>) -> Seq<StatementView> {
    v.map_values(|st: Statement| st@)
}

/// Reads an lvalue.
pub(crate) fn parse_lvalue<'a>(src: &Source<'a>, pos: usize) -> (r: Result<(LValue<'a>, usize), Failure>)
    requires
        pos <= src@.len(),
    ensures
        agrees(r, lvalue(src@, pos as int)),
        r matches Ok((_, next)) ==> pos < next <= src@.len(),
    decreases src@.len() - pos,
{
    let j = skip_whitespace(src, pos);
    if src.peek(j) == Some('(') {
        match parse_lvalue(src, j + 1) {
            Ok((inner, next)) => match read_symbol(src, next, ')') {
                Ok((_, end)) => Ok((LValue::LValue(Box::new(inner)), end)),
                Err(f) => Err(f),
            },
            Err(f) => Err(f),
        }
    } else {
        match read_identifier(src, pos) {
            Ok((name, next)) => Ok((LValue::Ident(name), next)),
            Err(f) => Err(f),
        }
    }
}

/// Reads an assignment operator.
pub(crate) fn parse_asnop(src: &Source, pos: usize) -> (r: Result<(AsNop, usize), Failure>)
    requires
        pos <= src@.len(),
    ensures
        agrees(r, asnop(src@, pos as int)),
        r matches Ok((_, next)) ==> pos < next <= src@.len(),
{
    let j = skip_whitespace(src, pos);
    let failure = Failure { at: j, expected: Expected::AssignOperator };
    match src.peek(j) {
        Some(c) => {
            if c == '=' {
                return Ok((AsNop::Equal, j + 1));
            }
            let op = if c == '+' {
                AsNop::PlusEqual
            } else if c == '-' {
                AsNop::MinusEqual
            } else if c == '*' {
                AsNop::MultEqual
            } else if c == '/' {
                AsNop::DivEqual
            } else if c == '%' {
                AsNop::ModEqual
            } else {
                return Err(failure);
            };
            if src.peek(j + 1) == Some('=') {
                Ok((op, j + 2))
            } else {
                Err(failure)
            }
        },
        None => Err(failure),
    }
}

/// Reads the unary operator.
pub(crate) fn parse_unop(src: &Source, pos: usize) -> (r: Result<(UnOperation, usize), Failure>)
    requires
        pos <= src@.len(),
    ensures
        agrees(r, unop(src@, pos as int)),
        r matches Ok((_, next)) ==> pos < next <= src@.len(),
{
    let j = skip_whitespace(src, pos);
    if src.peek(j) == Some('-') {
        Ok((UnOperation::Minus, j + 1))
    } else {
        Err(Failure { at: j, expected: Expected::UnaryOperator })
    }
}

/// Reads a declaration.
pub(crate) fn parse_declaration<'a>(src: &Source<'a>, pos: usize) -> (r: Result<
    (Declaration<'a>, usize),
    Failure,
>)
    requires
        pos <= src@.len(),
    ensures
        agrees(r, declaration(src@, pos as int)),
        r matches Ok((_, next)) ==> pos < next <= src@.len(),
{
    let a = match read_keyword(src, pos, Word::Int) {
        Ok((_, a)) => a,
        Err(f) => {
            return Err(f);
        },
    };
    let (ident, b) = match read_identifier(src, a) {
        Ok(found) => found,
        Err(f) => {
            return Err(f);
        },
    };
    match read_symbol(src, b, '=') {
        Ok((_, c)) => match parse_additive(src, c) {
            Ok((exp, next)) => Ok((Declaration::IdentExp { ident, exp }, next)),
            Err(f) => Err(f),
        },
        Err(_) => Ok((Declaration::Ident(ident), b)),
    }
}

/// Reads an assignment.
pub(crate) fn parse_simple_instruction<'a>(src: &Source<'a>, pos: usize) -> (r: Result<
    (SimpleInstruction<'a>, usize),
    Failure,
>)
    requires
        pos <= src@.len(),
    ensures
        agrees(r, simple_instruction(src@, pos as int)),
        r matches Ok((_, next)) ==> pos < next <= src@.len(),
{
    let (lvalue, a) = match parse_lvalue(src, pos) {
        Ok(found) => found,
        Err(f) => {
            return Err(f);
        },
    };
    let (asnop, b) = match parse_asnop(src, a) {
        Ok(found) => found,
        Err(f) => {
            return Err(f);
        },
    };
    match parse_additive(src, b) {
        Ok((exp, next)) => Ok((SimpleInstruction { lvalue, asnop, exp }, next)),
        Err(f) => Err(f),
    }
}

/// Reads a statement and the `;` behind it.
pub(crate) fn parse_statement<'a>(src: &Source<'a>, pos: usize) -> (r: Result<
    (Statement<'a>, usize),
    Failure,
>)
    requires
        pos <= src@.len(),
    ensures
        agrees(r, statement(src@, pos as int)),
        r matches Ok((_, next)) ==> pos < next <= src@.len(),
{
    let j = skip_whitespace(src, pos);
    let e = scan_word(src, j);
    if spells(src, j, e, Word::Int.as_str()) {
        let (d, a) = match parse_declaration(src, pos) {
            Ok(found) => found,
            Err(f) => {
                return Err(f);
            },
        };
        match read_symbol(src, a, ';') {
            Ok((_, next)) => Ok((Statement::Decl(d), next)),
            Err(f) => Err(f),
        }
    } else if spells(src, j, e, Word::Return.as_str()) {
        let a = match read_keyword(src, pos, Word::Return) {
            Ok((_, a)) => a,
            Err(f) => {
                return Err(f);
            },
        };
        let (exp, b) = match parse_additive(src, a) {
            Ok(found) => found,
            Err(f) => {
                return Err(f);
            },
        };
        match read_symbol(src, b, ';') {
            Ok((_, next)) => Ok((Statement::Return(exp), next)),
            Err(f) => Err(f),
        }
    } else {
        let (simp, a) = match parse_simple_instruction(src, pos) {
            Ok(found) => found,
            Err(f) => {
                return Err(f);
            },
        };
        match read_symbol(src, a, ';') {
            Ok((_, next)) => Ok((Statement::Simp(simp), next)),
            Err(f) => Err(f),
        }
    }
}

/// The statements of `v` as a linked list, in the same order.
pub fn link<'a>(v: Vec<Statement<'a>>) -> (r: Statements<'a>)
    ensures
        r@ == views(v@),
{
    let mut rest = v;
    let mut list = Statements::Empty;
    let ghost all = views(v@);
    while rest.len() > 0
        invariant
            views(rest@) + list@ == all,
        decreases rest.len(),
    {
        let ghost before = rest@;
        let ghost tail = list@;
        let current = rest.pop().unwrap();
        list = Statements::Statement { current, next: Box::new(list) };
        assert(list@ == seq![current@] + tail);
        assert(views(before) =~= views(rest@) + seq![current@]);
        assert(views(rest@) + list@ =~= views(before) + tail);
    }
    assert(views(rest@) =~= Seq::empty());
    assert(views(rest@) + list@ =~= list@);
    list
}

/// Reads statements up to the end of the text or the `}` that closes them.
pub(crate) fn parse_statements<'a>(src: &Source<'a>, pos: usize) -> (r: Result<
    (Statements<'a>, usize),
    Failure,
>)
    requires
        pos <= src@.len(),
    ensures
        agrees(r, statements(src@, pos as int)),
        r matches Ok((_, next)) ==> pos <= next <= src@.len(),
{
    let mut found: Vec<Statement<'a>> = Vec::new();
    let mut at: usize = pos;
    loop
        invariant_except_break
            pos <= at <= src@.len(),
            statements(src@, pos as int) == statements(src@, at as int).with(
                |rest: Seq<StatementView>| views(found@) + rest,
            ),
        ensures
            pos <= at <= src@.len(),
            statements(src@, pos as int) == (Outcome::Accept {
                value: views(found@),
                next: at as int,
            }),
        decreases src@.len() - at,
    {
        let j = skip_whitespace(src, at);
        match src.peek(j) {
            Some(c) => {
                if c == '}' {
                    assert(views(found@) + Seq::<StatementView>::empty() =~= views(found@));
                    break ;
                }
            },
            None => {
                assert(views(found@) + Seq::<StatementView>::empty() =~= views(found@));
                break ;
            },
        }
        match parse_statement(src, at) {
            Ok((st, next)) => {
                proof {
                    let before = views(found@);
                    let after = views(found@.push(st));
                    assert(after =~= before + seq![st@]);
                    match statements(src@, next as int) {
                        Outcome::Accept { value, next: end } => {
                            assert(before + (seq![st@] + value) =~= after + value);
                        },
                        Outcome::Reject { .. } => {},
                    }
                }
                found.push(st);
                at = next;
            },
            Err(f) => {
                return Err(f);
            },
        }
    }
    Ok((link(found), at))
}

/// Reads a program.
pub(crate) fn parse_program<'a>(src: &Source<'a>, pos: usize) -> (r: Result<
    (Program<'a>, usize),
    Failure,
>)
    requires
        pos <= src@.len(),
    ensures
        agrees(r, program(src@, pos as int)),
        r matches Ok((_, next)) ==> pos < next <= src@.len(),
{
    let a = match read_keyword(src, pos, Word::Int) {
        Ok((_, a)) => a,
        Err(f) => {
            return Err(f);
        },
    };
    let b = match read_keyword(src, a, Word::Main) {
        Ok((_, b)) => b,
        Err(f) => {
            return Err(f);
        },
    };
    let c = match read_symbol(src, b, '(') {
        Ok((_, c)) => c,
        Err(f) => {
            return Err(f);
        },
    };
    let d = match read_symbol(src, c, ')') {
        Ok((_, d)) => d,
        Err(f) => {
            return Err(f);
        },
    };
    let e = match read_symbol(src, d, '{') {
        Ok((_, e)) => e,
        Err(f) => {
            return Err(f);
        },
    };
    let (body, f) = match parse_statements(src, e) {
        Ok(found) => found,
        Err(f) => {
            return Err(f);
        },
    };
    match read_symbol(src, f, '}') {
        Ok((_, next)) => Ok((Program(body), next)),
        Err(f) => Err(f),
    }
}

} // verus!
