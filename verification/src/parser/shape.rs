//! The shape of the trees that the parser hands out.
//!
//! A tree is grammatical if the grammar can produce it: its names are
//! identifiers, its literals are written as literals, and no operand binds
//! weaker than its place allows without parentheses. Every tree that is
//! parsed is grammatical.

use vstd::prelude::*;
use crate::grammar::{
    BinOperation,
    DeclarationView,
    ExpressionView,
    IntconstView,
    LValueView,
    StatementView,
};
use crate::parser::expression::{
    additive,
    additive_op,
    additive_rest,
    binop,
    multiplicative,
    multiplicative_op,
    multiplicative_rest,
    primary,
    unary,
};
use crate::parser::lexical::{
    identifier,
    is_decimal_literal,
    is_hex_literal,
    is_identifier,
    keyword,
    lemma_identifier_is_source_text,
    lemma_literal_is_source_text,
    lemma_skip_ws,
    lemma_tokens_advance,
    skip_ws,
    symbol,
    Outcome,
    Word,
};
use crate::parser::statement::{
    asnop,
    body_ends,
    lemma_lvalue_advances,
    lemma_statement_advances,
    lvalue,
    program,
    statement,
    statements,
};
use crate::parser::expression::{
    lemma_multiplicative_advances,
    lemma_unary_advances,
};

verus! {

/// Whether `op` is `+` or `-`.
pub open spec fn is_additive(op: BinOperation) -> bool {
    op is Plus || op is Minus
}

/// How strongly the top of `e` binds: 0 for a sum, 1 for a product, 2 for
/// a unary minus, 3 for a literal, a name or parentheses.
pub open spec fn level(e: ExpressionView) -> nat {
    match e {
        ExpressionView::Binop { left, op, right } => if is_additive(op) {
            0
        } else {
            1
        },
        ExpressionView::Unop { .. } => 2,
        _ => 3,
    }
}

/// Whether the grammar can produce `e`: a sum has a product or stronger on
/// its right; a product has a product or stronger on its left and a unary
/// expression or stronger on its right; a unary minus stands in front of a
/// unary expression or stronger; names and literals are written as such.
pub open spec fn grammatical(e: ExpressionView) -> bool
    decreases e,
{
    match e {
        ExpressionView::NestedExp(inner) => grammatical(*inner),
        ExpressionView::Intconst(IntconstView::Decnum(t)) => is_decimal_literal(t),
        ExpressionView::Intconst(IntconstView::Hexnum(t)) => is_hex_literal(t),
        ExpressionView::Ident(name) => is_identifier(name),
        ExpressionView::Binop { left, op, right } => {
            &&& grammatical(*left)
            &&& grammatical(*right)
            &&& level(*right) >= 1
            &&& !is_additive(op) ==> level(*left) >= 1 && level(*right) >= 2
        },
        ExpressionView::Unop { op, right } => grammatical(*right) && level(*right) >= 2,
    }
}

/// Whether the grammar can produce `l`: its name is an identifier.
pub open spec fn grammatical_lvalue(l: LValueView) -> bool
    decreases l,
{
    match l {
        LValueView::Ident(name) => is_identifier(name),
        LValueView::LValue(inner) => grammatical_lvalue(*inner),
    }
}

/// Whether the grammar can produce `st`.
pub open spec fn grammatical_statement(st: StatementView) -> bool {
    match st {
        StatementView::Decl(DeclarationView::Ident(name)) => is_identifier(name),
        StatementView::Decl(DeclarationView::IdentExp { ident, exp }) => is_identifier(ident)
            && grammatical(exp),
        StatementView::Simp(simp) => grammatical_lvalue(simp.lvalue) && grammatical(simp.exp),
        StatementView::Return(exp) => grammatical(exp),
    }
}

/// Whether the grammar can produce each of `sts`.
pub open spec fn grammatical_statements(sts: Seq<StatementView>) -> bool {
    forall|k: int| 0 <= k < sts.len() ==> grammatical_statement(#[trigger] sts[k])
}

/// Whether an accepted expression is grammatical and binds at least as
/// strongly as `least`.
pub open spec fn fits(o: Outcome<ExpressionView>, least: nat) -> bool {
    o matches Outcome::Accept { value, .. } ==> grammatical(value) && level(value) >= least
}

/// Every expression that is parsed is grammatical.
pub proof fn lemma_expression_is_grammatical(s: Seq<char>, i: int)
    requires
        0 <= i <= s.len(),
    ensures
        fits(additive(s, i), 0),
    decreases s.len() - i, 6int,
{
    lemma_product_is_grammatical(s, i);
    lemma_multiplicative_advances(s, i);
    let first = multiplicative(s, i);
    if first.ends_within(i, s) {
        lemma_sum_is_grammatical(s, first->value, first->next);
    }
}

/// What [`lemma_expression_is_grammatical`] says, for the rest of a sum
/// that begins with a grammatical expression.
pub proof fn lemma_sum_is_grammatical(s: Seq<char>, left: ExpressionView, i: int)
    requires
        0 <= i <= s.len(),
        grammatical(left),
    ensures
        fits(additive_rest(s, left, i), 0),
    decreases s.len() - i, 5int,
{
    lemma_skip_ws(s, i);
    let j = skip_ws(s, i);
    if j < s.len() && additive_op(s[j]) is Some {
        lemma_product_is_grammatical(s, j + 1);
        lemma_multiplicative_advances(s, j + 1);
        let right = multiplicative(s, j + 1);
        if right.ends_within(j + 1, s) {
            lemma_sum_is_grammatical(
                s,
                binop(left, additive_op(s[j])->0, right->value),
                right->next,
            );
        }
    }
}

/// What [`lemma_expression_is_grammatical`] says, for a product.
pub proof fn lemma_product_is_grammatical(s: Seq<char>, i: int)
    requires
        0 <= i <= s.len(),
    ensures
        fits(multiplicative(s, i), 1),
    decreases s.len() - i, 4int,
{
    lemma_unary_is_grammatical(s, i);
    lemma_unary_advances(s, i);
    let first = unary(s, i);
    if first.ends_within(i, s) {
        lemma_product_rest_is_grammatical(s, first->value, first->next);
    }
}

/// What [`lemma_expression_is_grammatical`] says, for the rest of a
/// product that begins with a grammatical product or stronger.
pub proof fn lemma_product_rest_is_grammatical(s: Seq<char>, left: ExpressionView, i: int)
    requires
        0 <= i <= s.len(),
        grammatical(left),
        level(left) >= 1,
    ensures
        fits(multiplicative_rest(s, left, i), 1),
    decreases s.len() - i, 3int,
{
    lemma_skip_ws(s, i);
    let j = skip_ws(s, i);
    if j < s.len() && multiplicative_op(s[j]) is Some {
        lemma_unary_is_grammatical(s, j + 1);
        lemma_unary_advances(s, j + 1);
        let right = unary(s, j + 1);
        if right.ends_within(j + 1, s) {
            lemma_product_rest_is_grammatical(
                s,
                binop(left, multiplicative_op(s[j])->0, right->value),
                right->next,
            );
        }
    }
}

/// What [`lemma_expression_is_grammatical`] says, for a unary expression.
pub proof fn lemma_unary_is_grammatical(s: Seq<char>, i: int)
    requires
        0 <= i <= s.len(),
    ensures
        fits(unary(s, i), 2),
    decreases s.len() - i, 2int,
{
    lemma_skip_ws(s, i);
    let j = skip_ws(s, i);
    if j < s.len() && s[j] == '-' {
        lemma_unary_is_grammatical(s, j + 1);
    } else {
        lemma_primary_is_grammatical(s, i);
    }
}

/// What [`lemma_expression_is_grammatical`] says, for a primary.
pub proof fn lemma_primary_is_grammatical(s: Seq<char>, i: int)
    requires
        0 <= i <= s.len(),
    ensures
        fits(primary(s, i), 3),
    decreases s.len() - i, 1int,
{
    lemma_skip_ws(s, i);
    lemma_identifier_is_source_text(s, i);
    lemma_literal_is_source_text(s, i);
    let j = skip_ws(s, i);
    if j < s.len() && s[j] == '(' {
        lemma_expression_is_grammatical(s, j + 1);
    }
}

/// Every lvalue that is parsed is grammatical.
pub proof fn lemma_lvalue_is_grammatical(s: Seq<char>, i: int)
    requires
        0 <= i <= s.len(),
    ensures
        lvalue(s, i) matches Outcome::Accept { value, .. } ==> grammatical_lvalue(value),
    decreases s.len() - i,
{
    lemma_skip_ws(s, i);
    lemma_identifier_is_source_text(s, i);
    let j = skip_ws(s, i);
    if j < s.len() && s[j] == '(' {
        lemma_lvalue_is_grammatical(s, j + 1);
    }
}

/// Every statement that is parsed is grammatical.
pub proof fn lemma_statement_is_grammatical(s: Seq<char>, i: int)
    requires
        0 <= i <= s.len(),
    ensures
        statement(s, i) matches Outcome::Accept { value, .. } ==> grammatical_statement(value),
{
    lemma_tokens_advance(s, i);
    lemma_lvalue_is_grammatical(s, i);
    lemma_lvalue_advances(s, i);
    if let Outcome::Accept { value, next: a } = keyword(s, i, Word::Int) {
        lemma_identifier_is_source_text(s, a);
        lemma_tokens_advance(s, a);
        if let Outcome::Accept { value: ident, next: b } = identifier(s, a) {
            lemma_tokens_advance(s, b);
            if let Outcome::Accept { value, next: c } = symbol(s, b, '=') {
                lemma_expression_is_grammatical(s, c);
            }
        }
    }
    if let Outcome::Accept { value, next: a } = keyword(s, i, Word::Return) {
        lemma_expression_is_grammatical(s, a);
    }
    if let Outcome::Accept { value, next: a } = lvalue(s, i) {
        lemma_statement_advances(s, a);
        if let Outcome::Accept { value, next: b } = asnop(s, a) {
            lemma_expression_is_grammatical(s, b);
        }
    }
}

/// Every statement of statements that are parsed is grammatical.
pub proof fn lemma_statements_are_grammatical(s: Seq<char>, i: int)
    requires
        0 <= i <= s.len(),
    ensures
        statements(s, i) matches Outcome::Accept { value, .. } ==> grammatical_statements(value),
    decreases s.len() - i,
{
    if !body_ends(s, i) {
        lemma_statement_is_grammatical(s, i);
        lemma_statement_advances(s, i);
        let first = statement(s, i);
        if first.ends_within(i + 1, s) {
            lemma_statements_are_grammatical(s, first->next);
            if let Outcome::Accept { value: rest, next } = statements(s, first->next) {
                let all = seq![first->value] + rest;
                assert forall|k: int| 0 <= k < all.len() implies grammatical_statement(
                    #[trigger] all[k],
                ) by {
                    if k > 0 {
                        assert(all[k] == rest[k - 1]);
                    }
                }
            }
        }
    }
}

/// Every statement of a program that is parsed is grammatical: every tree
/// that the parser hands out is one that the grammar produces.
pub proof fn lemma_program_is_grammatical(s: Seq<char>)
    ensures
        program(s, 0) matches Outcome::Accept { value, .. } ==> grammatical_statements(value),
{
    lemma_tokens_advance(s, 0);
    if let Outcome::Accept { value, next: a } = keyword(s, 0, Word::Int) {
        lemma_tokens_advance(s, a);
        if let Outcome::Accept { value, next: b } = keyword(s, a, Word::Main) {
            lemma_tokens_advance(s, b);
            if let Outcome::Accept { value, next: c } = symbol(s, b, '(') {
                lemma_tokens_advance(s, c);
                if let Outcome::Accept { value, next: d } = symbol(s, c, ')') {
                    lemma_tokens_advance(s, d);
                    if let Outcome::Accept { value, next: e } = symbol(s, d, '{') {
                        lemma_statements_are_grammatical(s, e);
                    }
                }
            }
        }
    }
}

} // verus!
