//! The grammar of expressions, and the functions that read them.
//!
//! From weakest to strongest binding: sums (`+ -`), products (`* / %`), the
//! unary minus, and primaries (a literal, a name, an expression in
//! parentheses). Sums and products group to the left; a chain of unary minus
//! signs groups to the right.

use vstd::prelude::*;
use crate::grammar::{BinOperation, Expression, ExpressionView, IntconstView, UnOperation};
use crate::source::Source;
use crate::parser::lexical::{
    agrees,
    identifier,
    intconst,
    is_digit,
    is_ident_start,
    lemma_skip_ws,
    lemma_tokens_advance,
    read_identifier,
    read_intconst,
    read_symbol,
    skip_whitespace,
    skip_ws,
    symbol,
    CharClass,
    Expected,
    Failure,
    Outcome,
};

verus! {

/// The operator of a sum that `c` stands for.
pub open spec fn additive_op(c: char) -> Option<BinOperation> {
    if c == '+' {
        Some(BinOperation::Plus)
    } else if c == '-' {
        Some(BinOperation::Minus)
    } else {
        None
    }
}

/// The operator of a product that `c` stands for.
pub open spec fn multiplicative_op(c: char) -> Option<BinOperation> {
    if c == '*' {
        Some(BinOperation::Multiplication)
    } else if c == '/' {
        Some(BinOperation::Division)
    } else if c == '%' {
        Some(BinOperation::Mod)
    } else {
        None
    }
}

/// `left op right`.
pub open spec fn binop(left: ExpressionView, op: BinOperation, right: ExpressionView)
    -> ExpressionView {
    ExpressionView::Binop { left: Box::new(left), op, right: Box::new(right) }
}

/// An expression: a product, and the products added to or subtracted from
/// it, grouped to the left.
///
/// Here and below, a comparison of positions in front of a recursive call
/// serves only to show that the definition is well-founded;
/// [`lemma_expression_advances`] shows that it always holds.
pub open spec fn additive(s: Seq<char>, i: int) -> Outcome<ExpressionView>
    decreases s.len() - i, 6int,
{
    let first = multiplicative(s, i);
    if first.ends_within(i, s) {
        additive_rest(s, first->value, first->next)
    } else {
        first
    }
}

/// The sum that begins with `left`, which ends at `i`: further products
/// follow as long as a `+` or `-` does.
pub open spec fn additive_rest(s: Seq<char>, left: ExpressionView, i: int) -> Outcome<
    ExpressionView,
>
    decreases s.len() - i, 5int,
{
    let j = skip_ws(s, i);
    if 0 <= i && j < s.len() && additive_op(s[j]) is Some {
        proof {
            lemma_skip_ws(s, i);
        }
        let right = multiplicative(s, j + 1);
        if right.ends_within(j + 1, s) {
            additive_rest(s, binop(left, additive_op(s[j])->0, right->value), right->next)
        } else {
            right
        }
    } else {
        Outcome::Accept { value: left, next: i }
    }
}

/// A product: a unary expression, and the unary expressions that it is
/// multiplied with or divided by, grouped to the left.
pub open spec fn multiplicative(s: Seq<char>, i: int) -> Outcome<ExpressionView>
    decreases s.len() - i, 4int,
{
    let first = unary(s, i);
    if first.ends_within(i, s) {
        multiplicative_rest(s, first->value, first->next)
    } else {
        first
    }
}

/// The product that begins with `left`, which ends at `i`.
pub open spec fn multiplicative_rest(s: Seq<char>, left: ExpressionView, i: int) -> Outcome<
    ExpressionView,
>
    decreases s.len() - i, 3int,
{
    let j = skip_ws(s, i);
    if 0 <= i && j < s.len() && multiplicative_op(s[j]) is Some {
        proof {
            lemma_skip_ws(s, i);
        }
        let right = unary(s, j + 1);
        if right.ends_within(j + 1, s) {
            multiplicative_rest(
                s,
                binop(left, multiplicative_op(s[j])->0, right->value),
                right->next,
            )
        } else {
            right
        }
    } else {
        Outcome::Accept { value: left, next: i }
    }
}

/// A unary expression: any number of `-`, then a primary.
pub open spec fn unary(s: Seq<char>, i: int) -> Outcome<ExpressionView>
    decreases s.len() - i, 2int,
{
    let j = skip_ws(s, i);
    if 0 <= i && j < s.len() && s[j] == '-' {
        proof {
            lemma_skip_ws(s, i);
        }
        unary(s, j + 1).with(
            |e: ExpressionView| ExpressionView::Unop { op: UnOperation::Minus, right: Box::new(e) },
        )
    } else {
        primary(s, i)
    }
}

/// A primary: an expression in parentheses, an integer literal or an
/// identifier.
pub open spec fn primary(s: Seq<char>, i: int) -> Outcome<ExpressionView>
    decreases s.len() - i, 1int,
{
    let j = skip_ws(s, i);
    if 0 <= i && j < s.len() && s[j] == '(' {
        proof {
            lemma_skip_ws(s, i);
        }
        match additive(s, j + 1) {
            Outcome::Accept { value, next } => symbol(s, next, ')').with(
                |u: ()| ExpressionView::NestedExp(Box::new(value)),
            ),
            Outcome::Reject { at, expected } => Outcome::Reject { at, expected },
        }
    } else if j < s.len() && is_digit(s[j]) {
        intconst(s, i).with(|c: IntconstView| ExpressionView::Intconst(c))
    } else if j < s.len() && is_ident_start(s[j]) {
        identifier(s, i).with(|name: Seq<char>| ExpressionView::Ident(name))
    } else {
        Outcome::Reject { at: j, expected: Expected::Expression }
    }
}

/// An expression that is read at `i` ends behind `i` and inside the text,
/// and a rejection lies at or behind `i`: the comparisons of positions in
/// the grammar always hold.
pub proof fn lemma_expression_advances(s: Seq<char>, i: int)
    requires
        0 <= i <= s.len(),
    ensures
        additive(s, i).advances(i, s),
    decreases s.len() - i, 6int,
{
    lemma_multiplicative_advances(s, i);
    let first = multiplicative(s, i);
    if first.ends_within(i, s) {
        lemma_additive_rest_advances(s, first->value, first->next);
    }
}

/// What [`lemma_expression_advances`] says, for the rest of a sum.
pub proof fn lemma_additive_rest_advances(s: Seq<char>, left: ExpressionView, i: int)
    requires
        0 <= i <= s.len(),
    ensures
        additive_rest(s, left, i) matches Outcome::Accept { next, .. } ==> i <= next <= s.len(),
        additive_rest(s, left, i) matches Outcome::Reject { at, .. } ==> i < at <= s.len(),
    decreases s.len() - i, 5int,
{
    lemma_skip_ws(s, i);
    let j = skip_ws(s, i);
    if j < s.len() && additive_op(s[j]) is Some {
        lemma_multiplicative_advances(s, j + 1);
        let right = multiplicative(s, j + 1);
        if right.ends_within(j + 1, s) {
            lemma_additive_rest_advances(
                s,
                binop(left, additive_op(s[j])->0, right->value),
                right->next,
            );
        }
    }
}

/// What [`lemma_expression_advances`] says, for a product.
pub proof fn lemma_multiplicative_advances(s: Seq<char>, i: int)
    requires
        0 <= i <= s.len(),
    ensures
        multiplicative(s, i).advances(i, s),
    decreases s.len() - i, 4int,
{
    lemma_unary_advances(s, i);
    let first = unary(s, i);
    if first.ends_within(i, s) {
        lemma_multiplicative_rest_advances(s, first->value, first->next);
    }
}

/// What [`lemma_expression_advances`] says, for the rest of a product.
pub proof fn lemma_multiplicative_rest_advances(s: Seq<char>, left: ExpressionView, i: int)
    requires
        0 <= i <= s.len(),
    ensures
        multiplicative_rest(s, left, i) matches Outcome::Accept { next, .. } ==> i <= next
            <= s.len(),
        multiplicative_rest(s, left, i) matches Outcome::Reject { at, .. } ==> i < at <= s.len(),
    decreases s.len() - i, 3int,
{
    lemma_skip_ws(s, i);
    let j = skip_ws(s, i);
    if j < s.len() && multiplicative_op(s[j]) is Some {
        lemma_unary_advances(s, j + 1);
        let right = unary(s, j + 1);
        if right.ends_within(j + 1, s) {
            lemma_multiplicative_rest_advances(
                s,
                binop(left, multiplicative_op(s[j])->0, right->value),
                right->next,
            );
        }
    }
}

/// What [`lemma_expression_advances`] says, for a unary expression.
pub proof fn lemma_unary_advances(s: Seq<char>, i: int)
    requires
        0 <= i <= s.len(),
    ensures
        unary(s, i).advances(i, s),
    decreases s.len() - i, 2int,
{
    lemma_skip_ws(s, i);
    let j = skip_ws(s, i);
    if j < s.len() && s[j] == '-' {
        lemma_unary_advances(s, j + 1);
    } else {
        lemma_primary_advances(s, i);
    }
}

/// What [`lemma_expression_advances`] says, for a primary.
pub proof fn lemma_primary_advances(s: Seq<char>, i: int)
    requires
        0 <= i <= s.len(),
    ensures
        primary(s, i).advances(i, s),
    decreases s.len() - i, 1int,
{
    lemma_skip_ws(s, i);
    lemma_tokens_advance(s, i);
    let j = skip_ws(s, i);
    if j < s.len() && s[j] == '(' {
        lemma_expression_advances(s, j + 1);
        match additive(s, j + 1) {
            Outcome::Accept { value, next } => {
                lemma_tokens_advance(s, next);
            },
            Outcome::Reject { .. } => {},
        }
    }
}

/// Reads an expression.
pub(crate) fn parse_additive<'a>(src: &Source<'a>, pos: usize) -> (r: Result<
    (Expression<'a>, usize),
    Failure,
>)
    requires
        pos <= src@.len(),
    ensures
        agrees(r, additive(src@, pos as int)),
        r matches Ok((_, next)) ==> pos < next <= src@.len(),
    decreases src@.len() - pos, 6int,
{
    let (mut left, mut at) = match parse_multiplicative(src, pos) {
        Ok(found) => found,
        Err(f) => {
            return Err(f);
        },
    };
    loop
        invariant_except_break
            pos < at <= src@.len(),
            additive(src@, pos as int) == additive_rest(src@, left@, at as int),
        ensures
            pos < at <= src@.len(),
            additive(src@, pos as int) == (Outcome::Accept { value: left@, next: at as int }),
        decreases src@.len() - at,
    {
        let j = skip_whitespace(src, at);
        let op = match src.peek(j) {
            Some('+') => BinOperation::Plus,
            Some('-') => BinOperation::Minus,
            _ => {
                break ;
            },
        };
        match parse_multiplicative(src, j + 1) {
            Ok((right, next)) => {
                left = Expression::Binop { left: Box::new(left), op, right: Box::new(right) };
                at = next;
            },
            Err(f) => {
                return Err(f);
            },
        }
    }
    Ok((left, at))
}

/// Reads a product.
pub(crate) fn parse_multiplicative<'a>(src: &Source<'a>, pos: usize) -> (r: Result<
    (Expression<'a>, usize),
    Failure,
>)
    requires
        pos <= src@.len(),
    ensures
        agrees(r, multiplicative(src@, pos as int)),
        r matches Ok((_, next)) ==> pos < next <= src@.len(),
    decreases src@.len() - pos, 4int,
{
    let (mut left, mut at) = match parse_unary(src, pos) {
        Ok(found) => found,
        Err(f) => {
            return Err(f);
        },
    };
    loop
        invariant_except_break
            pos < at <= src@.len(),
            multiplicative(src@, pos as int) == multiplicative_rest(src@, left@, at as int),
        ensures
            pos < at <= src@.len(),
            multiplicative(src@, pos as int) == (Outcome::Accept { value: left@, next: at as int }),
        decreases src@.len() - at,
    {
        let j = skip_whitespace(src, at);
        let op = match src.peek(j) {
            Some('*') => BinOperation::Multiplication,
            Some('/') => BinOperation::Division,
            Some('%') => BinOperation::Mod,
            _ => {
                break ;
            },
        };
        match parse_unary(src, j + 1) {
            Ok((right, next)) => {
                left = Expression::Binop { left: Box::new(left), op, right: Box::new(right) };
                at = next;
            },
            Err(f) => {
                return Err(f);
            },
        }
    }
    Ok((left, at))
}

/// Reads a unary expression.
pub(crate) fn parse_unary<'a>(src: &Source<'a>, pos: usize) -> (r: Result<
    (Expression<'a>, usize),
    Failure,
>)
    requires
        pos <= src@.len(),
    ensures
        agrees(r, unary(src@, pos as int)),
        r matches Ok((_, next)) ==> pos < next <= src@.len(),
    decreases src@.len() - pos, 2int,
{
    let j = skip_whitespace(src, pos);
    if src.peek(j) == Some('-') {
        match parse_unary(src, j + 1) {
            Ok((e, next)) => Ok(
                (Expression::Unop { op: UnOperation::Minus, right: Box::new(e) }, next),
            ),
            Err(f) => Err(f),
        }
    } else {
        parse_primary(src, pos)
    }
}

/// Reads a primary.
pub(crate) fn parse_primary<'a>(src: &Source<'a>, pos: usize) -> (r: Result<
    (Expression<'a>, usize),
    Failure,
>)
    requires
        pos <= src@.len(),
    ensures
        agrees(r, primary(src@, pos as int)),
        r matches Ok((_, next)) ==> pos < next <= src@.len(),
    decreases src@.len() - pos, 1int,
{
    let j = skip_whitespace(src, pos);
    match src.peek(j) {
        Some(c) => {
            if c == '(' {
                match parse_additive(src, j + 1) {
                    Ok((e, next)) => match read_symbol(src, next, ')') {
                        Ok((_, end)) => Ok((Expression::NestedExp(Box::new(e)), end)),
                        Err(f) => Err(f),
                    },
                    Err(f) => Err(f),
                }
            } else if CharClass::Digit.test(c) {
                match read_intconst(src, pos) {
                    Ok((c, next)) => Ok((Expression::Intconst(c), next)),
                    Err(f) => Err(f),
                }
            } else if ('a' <= c && c <= 'z') || ('A' <= c && c <= 'Z') || c == '_' {
                match read_identifier(src, pos) {
                    Ok((name, next)) => Ok((Expression::Ident(name), next)),
                    Err(f) => Err(f),
                }
            } else {
                Err(Failure { at: j, expected: Expected::Expression })
            }
        },
        None => Err(Failure { at: j, expected: Expected::Expression }),
    }
}

} // verus!
