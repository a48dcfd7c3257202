//! The grammar as a relation between texts and trees.
//!
//! [`reads`] says, without any way of parsing in it, which stretch of a text
//! reads as which expression: the stretch holds the tokens of the
//! expression in their order, with white space of any length between them.
//! The parser finds, for a text, the one grammatical tree that the text
//! reads as: what it accepts reads as the tree that it hands out, and what
//! reads as a grammatical tree is accepted with that tree.

use vstd::prelude::*;
use crate::grammar::{
    AsNop,
    DeclarationView,
    ExpressionView,
    IntconstView,
    LValueView,
    SimpleInstructionView,
    StatementView,
};
use crate::parser::expression::{
    additive,
    additive_op,
    additive_rest,
    binop,
    lemma_expression_advances,
    lemma_multiplicative_advances,
    lemma_unary_advances,
    multiplicative,
    multiplicative_op,
    multiplicative_rest,
    primary,
    unary,
};
use crate::parser::lexical::{
    identifier,
    is_ident_part,
    is_whitespace,
    lemma_identifier_is_source_text,
    lemma_literal_is_source_text,
    lemma_run_end,
    lemma_skip_ws,
    lemma_tokens_advance,
    lemma_word_characters_are_no_whitespace,
    skip_ws,
    symbol,
    CharClass,
    Outcome,
};
use crate::parser::lexical::{keyword, word_at, Word};
use crate::parser::lexical::is_identifier;
use crate::parser::shape::{
    grammatical,
    grammatical_lvalue,
    grammatical_statement,
    grammatical_statements,
    lemma_program_is_grammatical,
    level,
};
use crate::parser::statement::{
    asnop,
    body_ends,
    declaration,
    lemma_lvalue_advances,
    lemma_program_of_parts,
    lemma_statement_advances,
    lemma_statements_advance,
    lvalue,
    program,
    simple_instruction,
    statement,
    statements,
};
use crate::parser::written::written_asnop;
use crate::parser::to_end;
use crate::parser::written::{
    lemma_run_end_exact,
    lemma_stands_index,
    lemma_written_identifier,
    lemma_written_literal,
    no_product_follows,
    no_sum_follows,
    op_char,
    stands_at,
    stops_at,
};

verus! {

/// Where the tokens of the expression `e` end if they stand in `s` from
/// `i` on, in their order, the first at `i`, with nothing but white space
/// between them; `None` where they do not stand there.
pub open spec fn read_off(s: Seq<char>, i: int, e: ExpressionView) -> Option<int>
    decreases e,
{
    match e {
        ExpressionView::Ident(name) => if stands_at(s, i, name) {
            Some(i + name.len())
        } else {
            None
        },
        ExpressionView::Intconst(IntconstView::Decnum(t)) => if stands_at(s, i, t) {
            Some(i + t.len())
        } else {
            None
        },
        ExpressionView::Intconst(IntconstView::Hexnum(t)) => if stands_at(s, i, t) {
            Some(i + t.len())
        } else {
            None
        },
        ExpressionView::NestedExp(inner) => if 0 <= i < s.len() && s[i] == '(' {
            match read_off(s, skip_ws(s, i + 1), *inner) {
                Some(k) => if 0 <= skip_ws(s, k) < s.len() && s[skip_ws(s, k)] == ')' {
                    Some(skip_ws(s, k) + 1)
                } else {
                    None
                },
                None => None,
            }
        } else {
            None
        },
        ExpressionView::Unop { op, right } => if 0 <= i < s.len() && s[i] == '-' {
            read_off(s, skip_ws(s, i + 1), *right)
        } else {
            None
        },
        ExpressionView::Binop { left, op, right } => match read_off(s, i, *left) {
            Some(k) => if 0 <= skip_ws(s, k) < s.len() && s[skip_ws(s, k)] == op_char(op) {
                read_off(s, skip_ws(s, skip_ws(s, k) + 1), *right)
            } else {
                None
            },
            None => None,
        },
    }
}

/// Whether the characters of `s` from `i` up to `j` read as the expression
/// `e`: they are the tokens of `e` in their order, white space between them
/// apart.
pub open spec fn reads(s: Seq<char>, i: int, j: int, e: ExpressionView) -> bool {
    read_off(s, i, e) == Some(j)
}

/// A stretch that reads as a grammatical expression lies inside the text,
/// is not empty, and begins with a character that is no white space; for a
/// literal, a name or parentheses, not with `-`.
pub proof fn lemma_reads_begins(s: Seq<char>, i: int, j: int, e: ExpressionView)
    requires
        grammatical(e),
        reads(s, i, j, e),
    ensures
        0 <= i < j <= s.len(),
        !is_whitespace(s[i]),
        skip_ws(s, i) == i,
        level(e) == 3 ==> s[i] != '-',
    decreases e,
{
    match e {
        ExpressionView::Ident(name) => {
            lemma_stands_index(s, i, name, 0);
        },
        ExpressionView::Intconst(IntconstView::Decnum(t)) => {
            lemma_stands_index(s, i, t, 0);
        },
        ExpressionView::Intconst(IntconstView::Hexnum(t)) => {
            lemma_stands_index(s, i, t, 0);
        },
        ExpressionView::NestedExp(inner) => {
            let k = read_off(s, skip_ws(s, i + 1), *inner)->0;
            lemma_skip_ws(s, i + 1);
            lemma_reads_begins(s, skip_ws(s, i + 1), k, *inner);
            lemma_skip_ws(s, k);
        },
        ExpressionView::Unop { op, right } => {
            lemma_skip_ws(s, i + 1);
            lemma_reads_begins(s, skip_ws(s, i + 1), j, *right);
        },
        ExpressionView::Binop { left, op, right } => {
            let k = read_off(s, i, *left)->0;
            lemma_reads_begins(s, i, k, *left);
            lemma_skip_ws(s, k);
            lemma_skip_ws(s, skip_ws(s, k) + 1);
            lemma_reads_begins(s, skip_ws(s, skip_ws(s, k) + 1), j, *right);
        },
    }
    lemma_run_end_exact(s, i, i, CharClass::Whitespace);
}

/// Where white space is skipped up to a character, a word that ends in
/// front of the white space ends there for good.
pub proof fn lemma_stops_in_front_of(s: Seq<char>, k: int, c: char)
    requires
        0 <= k,
        0 <= skip_ws(s, k) < s.len(),
        s[skip_ws(s, k)] == c,
        !is_ident_part(c),
    ensures
        stops_at(s, k),
{
    if k < s.len() {
        lemma_run_end(s, k, CharClass::Whitespace);
        if skip_ws(s, k) > k {
            lemma_word_characters_are_no_whitespace(s[k]);
        }
    }
}

/// A literal, a name or an expression in parentheses that a stretch reads
/// as is what is parsed in front of the stretch.
pub proof fn lemma_reads_primary(
    s: Seq<char>,
    from: int,
    i: int,
    j: int,
    e: ExpressionView,
)
    requires
        grammatical(e),
        level(e) == 3,
        0 <= from <= i,
        skip_ws(s, from) == i,
        reads(s, i, j, e),
        stops_at(s, j),
    ensures
        primary(s, from) == (Outcome::Accept { value: e, next: j }),
    decreases e, 1int,
{
    lemma_reads_begins(s, i, j, e);
    match e {
        ExpressionView::NestedExp(inner) => {
            let k = read_off(s, skip_ws(s, i + 1), *inner)->0;
            let a = skip_ws(s, i + 1);
            lemma_skip_ws(s, i + 1);
            lemma_reads_begins(s, a, k, *inner);
            lemma_stops_in_front_of(s, k, ')');
            lemma_reads_sum(s, i + 1, a, k, *inner);
            assert(additive(s, i + 1) == (Outcome::Accept { value: *inner, next: k }));
            assert(symbol(s, k, ')') == (Outcome::Accept { value: (), next: j }));
        },
        ExpressionView::Intconst(IntconstView::Decnum(t)) => {
            lemma_stands_index(s, i, t, 0);
            lemma_written_literal(s, from, i, t);
        },
        ExpressionView::Intconst(IntconstView::Hexnum(t)) => {
            lemma_stands_index(s, i, t, 0);
            lemma_written_literal(s, from, i, t);
        },
        ExpressionView::Ident(name) => {
            lemma_stands_index(s, i, name, 0);
            lemma_written_identifier(s, from, i, name);
        },
        _ => {},
    }
}

/// A unary expression or stronger that a stretch reads as is what is
/// parsed in front of the stretch.
pub proof fn lemma_reads_unary(
    s: Seq<char>,
    from: int,
    i: int,
    j: int,
    e: ExpressionView,
)
    requires
        grammatical(e),
        level(e) >= 2,
        0 <= from <= i,
        skip_ws(s, from) == i,
        reads(s, i, j, e),
        stops_at(s, j),
    ensures
        unary(s, from) == (Outcome::Accept { value: e, next: j }),
    decreases e, 2int,
{
    lemma_reads_begins(s, i, j, e);
    match e {
        ExpressionView::Unop { op, right } => {
            lemma_skip_ws(s, i + 1);
            lemma_reads_unary(s, i + 1, skip_ws(s, i + 1), j, *right);
        },
        _ => {
            lemma_reads_primary(s, from, i, j, e);
        },
    }
}

/// Behind a product or stronger that a stretch reads as, the product goes
/// on with it as its left side.
pub proof fn lemma_reads_product(
    s: Seq<char>,
    from: int,
    i: int,
    j: int,
    e: ExpressionView,
)
    requires
        grammatical(e),
        level(e) >= 1,
        0 <= from <= i,
        skip_ws(s, from) == i,
        reads(s, i, j, e),
        stops_at(s, j),
    ensures
        multiplicative(s, from) == multiplicative_rest(s, e, j),
    decreases e, 3int,
{
    lemma_reads_begins(s, i, j, e);
    match e {
        ExpressionView::Binop { left, op, right } => {
            let k = read_off(s, i, *left)->0;
            let o = skip_ws(s, k);
            lemma_reads_begins(s, i, k, *left);
            lemma_stops_in_front_of(s, k, op_char(op));
            lemma_reads_product(s, from, i, k, *left);
            lemma_skip_ws(s, k);
            lemma_skip_ws(s, o + 1);
            lemma_reads_begins(s, skip_ws(s, o + 1), j, *right);
            lemma_reads_unary(s, o + 1, skip_ws(s, o + 1), j, *right);
            assert(multiplicative_op(s[o]) == Some(op));
            assert(unary(s, o + 1).ends_within(o + 1, s));
            assert(binop(*left, op, *right) == e);
            assert(multiplicative_rest(s, *left, k) == multiplicative_rest(s, e, j));
        },
        _ => {
            lemma_reads_unary(s, from, i, j, e);
        },
    }
}

/// Behind an expression that a stretch reads as, and that no `*`, `/` or
/// `%` follows, the sum goes on with it as its left side; where no `+` or
/// `-` follows either, the expression is what is parsed.
pub proof fn lemma_reads_sum(s: Seq<char>, from: int, i: int, j: int, e: ExpressionView)
    requires
        grammatical(e),
        0 <= from <= i,
        skip_ws(s, from) == i,
        reads(s, i, j, e),
        stops_at(s, j),
        no_product_follows(s, j),
    ensures
        additive(s, from) == additive_rest(s, e, j),
        no_sum_follows(s, j) ==> additive(s, from) == (Outcome::Accept { value: e, next: j }),
    decreases e, 4int,
{
    lemma_reads_begins(s, i, j, e);
    if level(e) >= 1 {
        lemma_reads_product(s, from, i, j, e);
        assert(multiplicative_rest(s, e, j) == (Outcome::Accept { value: e, next: j }));
    } else {
        match e {
            ExpressionView::Binop { left, op, right } => {
                let k = read_off(s, i, *left)->0;
                let o = skip_ws(s, k);
                lemma_reads_begins(s, i, k, *left);
                lemma_stops_in_front_of(s, k, op_char(op));
                assert(no_product_follows(s, k));
                lemma_reads_sum(s, from, i, k, *left);
                lemma_skip_ws(s, k);
                lemma_skip_ws(s, o + 1);
                lemma_reads_begins(s, skip_ws(s, o + 1), j, *right);
                lemma_reads_product(s, o + 1, skip_ws(s, o + 1), j, *right);
                assert(multiplicative_rest(s, *right, j) == (Outcome::Accept {
                    value: *right,
                    next: j,
                }));
                assert(additive_op(s[o]) == Some(op));
                assert(multiplicative(s, o + 1).ends_within(o + 1, s));
                assert(binop(*left, op, *right) == e);
                assert(additive_rest(s, *left, k) == additive_rest(s, e, j));
            },
            _ => {},
        }
    }
}

/// An expression that is parsed is read by the stretch that it was parsed
/// from: from the first character that is no white space up to the position
/// behind the expression.
pub proof fn lemma_parsed_sum_reads(s: Seq<char>, from: int)
    requires
        0 <= from <= s.len(),
    ensures
        additive(s, from) matches Outcome::Accept { value, next } ==> reads(
            s,
            skip_ws(s, from),
            next,
            value,
        ),
    decreases s.len() - from, 6int,
{
    lemma_parsed_product_reads(s, from);
    lemma_multiplicative_advances(s, from);
    let first = multiplicative(s, from);
    if first.ends_within(from, s) {
        lemma_parsed_sum_rest_reads(s, skip_ws(s, from), first->value, first->next);
    }
}

/// What [`lemma_parsed_sum_reads`] says, for the rest of a sum whose left
/// side the stretch from `start` up to `k` reads as.
pub proof fn lemma_parsed_sum_rest_reads(s: Seq<char>, start: int, left: ExpressionView, k: int)
    requires
        0 <= k <= s.len(),
        reads(s, start, k, left),
    ensures
        additive_rest(s, left, k) matches Outcome::Accept { value, next } ==> reads(
            s,
            start,
            next,
            value,
        ),
    decreases s.len() - k, 5int,
{
    lemma_skip_ws(s, k);
    let o = skip_ws(s, k);
    if o < s.len() && additive_op(s[o]) is Some {
        lemma_parsed_product_reads(s, o + 1);
        lemma_multiplicative_advances(s, o + 1);
        let right = multiplicative(s, o + 1);
        if right.ends_within(o + 1, s) {
            let op = additive_op(s[o])->0;
            let whole = binop(left, op, right->value);
            assert(reads(s, start, right->next, whole));
            lemma_parsed_sum_rest_reads(s, start, whole, right->next);
        }
    }
}

/// What [`lemma_parsed_sum_reads`] says, for a product.
pub proof fn lemma_parsed_product_reads(s: Seq<char>, from: int)
    requires
        0 <= from <= s.len(),
    ensures
        multiplicative(s, from) matches Outcome::Accept { value, next } ==> reads(
            s,
            skip_ws(s, from),
            next,
            value,
        ),
    decreases s.len() - from, 4int,
{
    lemma_parsed_unary_reads(s, from);
    lemma_unary_advances(s, from);
    let first = unary(s, from);
    if first.ends_within(from, s) {
        lemma_parsed_product_rest_reads(s, skip_ws(s, from), first->value, first->next);
    }
}

/// What [`lemma_parsed_sum_reads`] says, for the rest of a product whose
/// left side the stretch from `start` up to `k` reads as.
pub proof fn lemma_parsed_product_rest_reads(
    s: Seq<char>,
    start: int,
    left: ExpressionView,
    k: int,
)
    requires
        0 <= k <= s.len(),
        reads(s, start, k, left),
    ensures
        multiplicative_rest(s, left, k) matches Outcome::Accept { value, next } ==> reads(
            s,
            start,
            next,
            value,
        ),
    decreases s.len() - k, 3int,
{
    lemma_skip_ws(s, k);
    let o = skip_ws(s, k);
    if o < s.len() && multiplicative_op(s[o]) is Some {
        lemma_parsed_unary_reads(s, o + 1);
        lemma_unary_advances(s, o + 1);
        let right = unary(s, o + 1);
        if right.ends_within(o + 1, s) {
            let op = multiplicative_op(s[o])->0;
            let whole = binop(left, op, right->value);
            assert(reads(s, start, right->next, whole));
            lemma_parsed_product_rest_reads(s, start, whole, right->next);
        }
    }
}

/// What [`lemma_parsed_sum_reads`] says, for a unary expression.
pub proof fn lemma_parsed_unary_reads(s: Seq<char>, from: int)
    requires
        0 <= from <= s.len(),
    ensures
        unary(s, from) matches Outcome::Accept { value, next } ==> reads(
            s,
            skip_ws(s, from),
            next,
            value,
        ),
    decreases s.len() - from, 2int,
{
    lemma_skip_ws(s, from);
    let j = skip_ws(s, from);
    if j < s.len() && s[j] == '-' {
        lemma_parsed_unary_reads(s, j + 1);
    } else {
        lemma_parsed_primary_reads(s, from);
    }
}

/// What [`lemma_parsed_sum_reads`] says, for a primary.
pub proof fn lemma_parsed_primary_reads(s: Seq<char>, from: int)
    requires
        0 <= from <= s.len(),
    ensures
        primary(s, from) matches Outcome::Accept { value, next } ==> reads(
            s,
            skip_ws(s, from),
            next,
            value,
        ),
    decreases s.len() - from, 1int,
{
    lemma_skip_ws(s, from);
    lemma_tokens_advance(s, from);
    lemma_identifier_is_source_text(s, from);
    lemma_literal_is_source_text(s, from);
    let j = skip_ws(s, from);
    if j < s.len() && s[j] == '(' {
        lemma_parsed_sum_reads(s, j + 1);
        lemma_expression_advances(s, j + 1);
        if let Outcome::Accept { value, next: k } = additive(s, j + 1) {
            lemma_skip_ws(s, k);
            lemma_tokens_advance(s, k);
        }
    } else {
        if let Outcome::Accept { value, next } = primary(s, from) {
            lemma_run_end(s, j + 1, CharClass::Word);
            lemma_run_end(s, j, CharClass::Digit);
            if j + 2 < s.len() {
                lemma_run_end(s, j + 2, CharClass::HexDigit);
            }
            assert(j <= next <= s.len());
            assert(s.subrange(j, next).len() == next - j);
        }
    }
}

/// Whether the whole text `s`, white space around it apart, reads as the
/// expression `e`.
pub open spec fn text_reads(s: Seq<char>, e: ExpressionView) -> bool {
    read_off(s, skip_ws(s, 0), e) matches Some(j) && skip_ws(s, j) >= s.len()
}

/// A text is an expression exactly if it reads as a grammatical tree, and
/// that tree is the one that is parsed: no text reads as two grammatical
/// trees.
pub proof fn lemma_expression_is_what_reads(s: Seq<char>, e: ExpressionView)
    ensures
        (to_end(additive(s, 0), s) matches Outcome::Accept { value, .. } && value == e) <==> (
        grammatical(e) && text_reads(s, e)),
{
    lemma_skip_ws(s, 0);
    if grammatical(e) && text_reads(s, e) {
        let i = skip_ws(s, 0);
        let j = read_off(s, i, e)->0;
        lemma_reads_begins(s, i, j, e);
        lemma_skip_ws(s, j);
        if j < s.len() {
            lemma_run_end(s, j, CharClass::Whitespace);
            lemma_word_characters_are_no_whitespace(s[j]);
        }
        lemma_reads_sum(s, 0, i, j, e);
    }
    if let Outcome::Accept { value, next } = additive(s, 0) {
        lemma_parsed_sum_reads(s, 0);
        crate::parser::shape::lemma_expression_is_grammatical(s, 0);
    }
}

/// Where the tokens of the lvalue `l` end if they stand in `s` from `i` on.
pub open spec fn read_off_lvalue(s: Seq<char>, i: int, l: LValueView) -> Option<int>
    decreases l,
{
    match l {
        LValueView::Ident(name) => if stands_at(s, i, name) {
            Some(i + name.len())
        } else {
            None
        },
        LValueView::LValue(inner) => if 0 <= i < s.len() && s[i] == '(' {
            match read_off_lvalue(s, skip_ws(s, i + 1), *inner) {
                Some(k) => if 0 <= skip_ws(s, k) < s.len() && s[skip_ws(s, k)] == ')' {
                    Some(skip_ws(s, k) + 1)
                } else {
                    None
                },
                None => None,
            }
        } else {
            None
        },
    }
}

/// Whether the word `word` stands at `i` and ends there.
pub open spec fn word_stands(s: Seq<char>, i: int, word: Word) -> bool {
    stands_at(s, i, word.text()) && stops_at(s, i + word.text().len())
}

/// Where the expression `exp` and the `;` behind it end if they stand in
/// `s` behind the position `from`.
pub open spec fn read_off_tail(s: Seq<char>, from: int, exp: ExpressionView) -> Option<int> {
    match read_off(s, skip_ws(s, from), exp) {
        Some(k) => if 0 <= skip_ws(s, k) < s.len() && s[skip_ws(s, k)] == ';' {
            Some(skip_ws(s, k) + 1)
        } else {
            None
        },
        None => None,
    }
}

/// Where the tokens of the statement `st`, its `;` included, end if they
/// stand in `s` from `i` on.
pub open spec fn read_off_statement(s: Seq<char>, i: int, st: StatementView) -> Option<int> {
    match st {
        StatementView::Decl(DeclarationView::Ident(name)) => {
            let a = skip_ws(s, i + 3);
            let b = skip_ws(s, a + name.len());
            if word_stands(s, i, Word::Int) && stands_at(s, a, name) && 0 <= b < s.len() && s[b]
                == ';' {
                Some(b + 1)
            } else {
                None
            }
        },
        StatementView::Decl(DeclarationView::IdentExp { ident, exp }) => {
            let a = skip_ws(s, i + 3);
            let b = skip_ws(s, a + ident.len());
            if word_stands(s, i, Word::Int) && stands_at(s, a, ident) && 0 <= b < s.len() && s[b]
                == '=' {
                read_off_tail(s, b + 1, exp)
            } else {
                None
            }
        },
        StatementView::Simp(simp) => match read_off_lvalue(s, i, simp.lvalue) {
            Some(a) => if stands_at(s, skip_ws(s, a), written_asnop(simp.asnop)) {
                read_off_tail(s, skip_ws(s, a) + written_asnop(simp.asnop).len(), simp.exp)
            } else {
                None
            },
            None => None,
        },
        StatementView::Return(exp) => if word_stands(s, i, Word::Return) {
            read_off_tail(s, i + 6, exp)
        } else {
            None
        },
    }
}

/// Where the statements `sts` end if they stand in `s` behind the position
/// `from`, one behind the other; `from` itself where there are none.
pub open spec fn read_off_body(s: Seq<char>, from: int, sts: Seq<StatementView>) -> Option<int>
    decreases sts.len(),
{
    if sts.len() == 0 {
        Some(from)
    } else {
        match read_off_statement(s, skip_ws(s, from), sts[0]) {
            Some(next) => read_off_body(s, next, sts.drop_first()),
            None => None,
        }
    }
}

/// Whether the whole text `s`, white space around it apart, reads as the
/// program with the body `p`: `int`, `main`, `(`, `)`, `{`, the statements
/// of `p` and `}` stand there in this order, with nothing but white space
/// between them.
pub open spec fn program_reads(s: Seq<char>, p: Seq<StatementView>) -> bool {
    let a = skip_ws(s, 0);
    let b = skip_ws(s, a + 3);
    let c = skip_ws(s, b + 4);
    let d = skip_ws(s, c + 1);
    let e = skip_ws(s, d + 1);
    &&& word_stands(s, a, Word::Int)
    &&& word_stands(s, b, Word::Main)
    &&& 0 <= c < s.len() && s[c] == '('
    &&& 0 <= d < s.len() && s[d] == ')'
    &&& 0 <= e < s.len() && s[e] == '{'
    &&& read_off_body(s, e + 1, p) matches Some(f)
    &&& 0 <= skip_ws(s, f) < s.len()
    &&& s[skip_ws(s, f)] == '}'
    &&& skip_ws(s, skip_ws(s, f) + 1) >= s.len()
}

/// A word of the grammar that stands at `i` and ends there is read.
pub proof fn lemma_word_is_read(s: Seq<char>, from: int, i: int, word: Word)
    requires
        0 <= from <= i,
        skip_ws(s, from) == i,
        word_stands(s, i, word),
    ensures
        keyword(s, from, word) == (Outcome::Accept { value: (), next: i + word.text().len() }),
        word_at(s, i) == word.text(),
        word.text().len() == (match word {
            Word::Int => 3nat,
            Word::Main => 4nat,
            Word::Return => 6nat,
        }),
{
    reveal_strlit("int");
    reveal_strlit("main");
    reveal_strlit("return");
    let w = word.text();
    assert forall|k: int| i <= k < i + w.len() implies is_ident_part(#[trigger] s[k]) by {
        lemma_stands_index(s, i, w, k - i);
    }
    lemma_stands_index(s, i, w, 0);
    lemma_run_end_exact(s, i + 1, i + w.len(), CharClass::Word);
}

/// A word of the grammar that is read stands at the first character that
/// is no white space, and ends there.
pub proof fn lemma_read_word_stands(s: Seq<char>, from: int, word: Word)
    requires
        0 <= from <= s.len(),
    ensures
        keyword(s, from, word) matches Outcome::Accept { value, next } ==> word_stands(
            s,
            skip_ws(s, from),
            word,
        ) && next == skip_ws(s, from) + word.text().len(),
        word_at(s, skip_ws(s, from)) == word.text() ==> keyword(s, from, word) is Accept,
        word.text().len() == (match word {
            Word::Int => 3nat,
            Word::Main => 4nat,
            Word::Return => 6nat,
        }),
{
    reveal_strlit("int");
    reveal_strlit("main");
    reveal_strlit("return");
    lemma_skip_ws(s, from);
    let j = skip_ws(s, from);
    if j < s.len() {
        lemma_run_end(s, j + 1, CharClass::Word);
    }
    if word_at(s, j) == word.text() {
        assert(word_at(s, j).len() > 0);
    }
}

/// An lvalue that a stretch reads as is what is parsed in front of the
/// stretch.
pub proof fn lemma_reads_lvalue(s: Seq<char>, from: int, i: int, j: int, l: LValueView)
    requires
        grammatical_lvalue(l),
        0 <= from <= i,
        skip_ws(s, from) == i,
        read_off_lvalue(s, i, l) == Some(j),
        stops_at(s, j),
    ensures
        lvalue(s, from) == (Outcome::Accept { value: l, next: j }),
        0 <= i < j <= s.len(),
        s[i] == '(' || word_at(s, i) == target_name(l),
        s[i] == '(' ==> word_at(s, i).len() == 0,
    decreases l,
{
    match l {
        LValueView::Ident(name) => {
            lemma_stands_index(s, i, name, 0);
            lemma_written_identifier(s, from, i, name);
            assert forall|k: int| i <= k < i + name.len() implies is_ident_part(
                #[trigger] s[k],
            ) by {
                lemma_stands_index(s, i, name, k - i);
            }
            lemma_run_end_exact(s, i + 1, j, CharClass::Word);
        },
        LValueView::LValue(inner) => {
            let a = skip_ws(s, i + 1);
            let k = read_off_lvalue(s, a, *inner)->0;
            lemma_skip_ws(s, i + 1);
            lemma_skip_ws(s, k);
            lemma_stops_in_front_of_lvalue_end(s, a, k, *inner);
            lemma_reads_lvalue(s, i + 1, a, k, *inner);
            assert(symbol(s, k, ')') == (Outcome::Accept { value: (), next: j }));
        },
    }
}

/// The name that the lvalue `l` holds.
pub open spec fn target_name(l: LValueView) -> Seq<char>
    decreases l,
{
    match l {
        LValueView::Ident(name) => name,
        LValueView::LValue(inner) => target_name(*inner),
    }
}

/// In front of the `)` that closes an lvalue, what it holds ends for good.
proof fn lemma_stops_in_front_of_lvalue_end(s: Seq<char>, a: int, k: int, l: LValueView)
    requires
        read_off_lvalue(s, a, l) == Some(k),
        0 <= a,
        0 <= skip_ws(s, k) < s.len(),
        s[skip_ws(s, k)] == ')',
    ensures
        stops_at(s, k),
        0 <= k,
    decreases l,
{
    match l {
        LValueView::Ident(name) => {},
        LValueView::LValue(inner) => {
            let b = skip_ws(s, a + 1);
            lemma_skip_ws(s, a + 1);
            let m = read_off_lvalue(s, b, *inner)->0;
            lemma_stops_in_front_of_lvalue_end(s, b, m, *inner);
            lemma_skip_ws(s, m);
        },
    }
    lemma_stops_in_front_of(s, k, ')');
}

/// An lvalue that is parsed is read by the stretch that it was parsed from.
pub proof fn lemma_parsed_lvalue_reads(s: Seq<char>, from: int)
    requires
        0 <= from <= s.len(),
    ensures
        lvalue(s, from) matches Outcome::Accept { value, next } ==> read_off_lvalue(
            s,
            skip_ws(s, from),
            value,
        ) == Some(next),
    decreases s.len() - from,
{
    lemma_skip_ws(s, from);
    lemma_identifier_is_source_text(s, from);
    let j = skip_ws(s, from);
    if j < s.len() && s[j] == '(' {
        lemma_parsed_lvalue_reads(s, j + 1);
        lemma_lvalue_advances(s, j + 1);
        if let Outcome::Accept { value, next: k } = lvalue(s, j + 1) {
            lemma_skip_ws(s, k);
            lemma_tokens_advance(s, k);
        }
    } else {
        if let Outcome::Accept { value, next } = lvalue(s, from) {
            lemma_run_end(s, j + 1, CharClass::Word);
            assert(s.subrange(j, next).len() == next - j);
        }
    }
}

/// An expression with its `;` that stands behind `from` is read, and so is
/// the `;`.
pub proof fn lemma_reads_tail(s: Seq<char>, from: int, j: int, exp: ExpressionView)
    requires
        grammatical(exp),
        0 <= from,
        read_off_tail(s, from, exp) == Some(j),
    ensures
        additive(s, from) matches Outcome::Accept { value, next } && value == exp && symbol(
            s,
            next,
            ';',
        ) == (Outcome::Accept { value: (), next: j }),
        from < j <= s.len(),
{
    let i = skip_ws(s, from);
    let k = read_off(s, i, exp)->0;
    lemma_skip_ws(s, from);
    lemma_reads_begins(s, i, k, exp);
    lemma_skip_ws(s, k);
    lemma_stops_in_front_of(s, k, ';');
    lemma_reads_sum(s, from, i, k, exp);
}

/// An expression with its `;` that is parsed is read.
pub proof fn lemma_parsed_tail_reads(s: Seq<char>, from: int)
    requires
        0 <= from <= s.len(),
    ensures
        additive(s, from) matches Outcome::Accept { value, next } ==> (symbol(
            s,
            next,
            ';',
        ) matches Outcome::Accept { value: u, next: end } ==> read_off_tail(s, from, value)
            == Some(end)),
{
    lemma_parsed_sum_reads(s, from);
    lemma_expression_advances(s, from);
    if let Outcome::Accept { value, next } = additive(s, from) {
        lemma_skip_ws(s, next);
    }
}

/// An assignment operator is read exactly where it stands.
pub proof fn lemma_asnop_stands(s: Seq<char>, from: int, op: AsNop)
    requires
        0 <= from <= s.len(),
    ensures
        asnop(s, from) == (Outcome::Accept {
            value: op,
            next: skip_ws(s, from) + written_asnop(op).len(),
        }) <==> stands_at(s, skip_ws(s, from), written_asnop(op)),
        asnop(s, from) matches Outcome::Accept { value, next } ==> next == skip_ws(s, from)
            + written_asnop(value).len(),
{
    lemma_skip_ws(s, from);
    let o = skip_ws(s, from);
    let text = written_asnop(op);
    if stands_at(s, o, text) {
        lemma_stands_index(s, o, text, 0);
        if text.len() > 1 {
            lemma_stands_index(s, o, text, 1);
        }
    }
    if asnop(s, from) == (Outcome::Accept { value: op, next: o + text.len() }) {
        assert(s.subrange(o, o + text.len()) =~= text);
    }
}

/// A declaration without a value that a stretch reads as is what is parsed
/// in front of the stretch.
proof fn lemma_reads_plain_declaration(s: Seq<char>, from: int, i: int, j: int, name: Seq<char>)
    requires
        is_identifier(name),
        0 <= from <= i,
        skip_ws(s, from) == i,
        read_off_statement(s, i, StatementView::Decl(DeclarationView::Ident(name))) == Some(j),
    ensures
        statement(s, from) == (Outcome::Accept {
            value: StatementView::Decl(DeclarationView::Ident(name)),
            next: j,
        }),
        i < j,
{
    let a = skip_ws(s, i + 3);
    let b = skip_ws(s, a + name.len());
    lemma_word_is_read(s, from, i, Word::Int);
    lemma_skip_ws(s, i + 3);
    lemma_skip_ws(s, a + name.len());
    assert(identifier(s, i + 3) == (Outcome::Accept { value: name, next: a + name.len() })) by {
        lemma_stops_in_front_of(s, a + name.len(), ';');
        lemma_written_identifier(s, i + 3, a, name);
    }
    assert(symbol(s, a + name.len(), '=') is Reject);
    assert(symbol(s, a + name.len(), ';') == (Outcome::Accept { value: (), next: j }));
    assert(declaration(s, from) == (Outcome::Accept {
        value: DeclarationView::Ident(name),
        next: a + name.len(),
    }));
}

/// A declaration with a value that a stretch reads as is what is parsed in
/// front of the stretch.
proof fn lemma_reads_initialising_declaration(
    s: Seq<char>,
    from: int,
    i: int,
    j: int,
    ident: Seq<char>,
    exp: ExpressionView,
)
    requires
        is_identifier(ident),
        grammatical(exp),
        0 <= from <= i,
        skip_ws(s, from) == i,
        read_off_statement(s, i, StatementView::Decl(DeclarationView::IdentExp { ident, exp }))
            == Some(j),
    ensures
        statement(s, from) == (Outcome::Accept {
            value: StatementView::Decl(DeclarationView::IdentExp { ident, exp }),
            next: j,
        }),
        i < j,
{
    let a = skip_ws(s, i + 3);
    let b = skip_ws(s, a + ident.len());
    lemma_word_is_read(s, from, i, Word::Int);
    lemma_skip_ws(s, i + 3);
    lemma_skip_ws(s, a + ident.len());
    assert(identifier(s, i + 3) == (Outcome::Accept { value: ident, next: a + ident.len() })) by {
        lemma_stops_in_front_of(s, a + ident.len(), '=');
        lemma_written_identifier(s, i + 3, a, ident);
    }
    assert(symbol(s, a + ident.len(), '=') == (Outcome::Accept { value: (), next: b + 1 }));
    lemma_reads_tail(s, b + 1, j, exp);
    let k = additive(s, b + 1)->next;
    assert(declaration(s, from) == (Outcome::Accept {
        value: DeclarationView::IdentExp { ident, exp },
        next: k,
    }));
}

/// An assignment that a stretch reads as is what is parsed in front of the
/// stretch.
proof fn lemma_reads_assignment(s: Seq<char>, from: int, i: int, j: int, simp: SimpleInstructionView)
    requires
        grammatical_lvalue(simp.lvalue),
        grammatical(simp.exp),
        0 <= from <= i,
        skip_ws(s, from) == i,
        read_off_statement(s, i, StatementView::Simp(simp)) == Some(j),
    ensures
        statement(s, from) == (Outcome::Accept { value: StatementView::Simp(simp), next: j }),
        i < j,
{
    let a = read_off_lvalue(s, i, simp.lvalue)->0;
    let o = skip_ws(s, a);
    let text = written_asnop(simp.asnop);
    assert(0 <= a && stops_at(s, a)) by {
        lemma_lvalue_end(s, i, a, simp.lvalue);
        lemma_skip_ws(s, a);
        lemma_stands_index(s, o, text, 0);
        lemma_stops_in_front_of(s, a, text[0]);
    }
    lemma_reads_lvalue(s, from, i, a, simp.lvalue);
    lemma_asnop_stands(s, a, simp.asnop);
    lemma_skip_ws(s, a);
    lemma_reads_tail(s, o + text.len(), j, simp.exp);
    let k = additive(s, o + text.len())->next;
    assert(word_at(s, i) != Word::Int.text() && word_at(s, i) != Word::Return.text()) by {
        reveal_strlit("int");
        reveal_strlit("return");
        lemma_target_is_identifier(simp.lvalue);
    }
    assert(simple_instruction(s, from) == (Outcome::Accept { value: simp, next: k }));
}

/// What an lvalue holds is an identifier.
proof fn lemma_target_is_identifier(l: LValueView)
    requires
        grammatical_lvalue(l),
    ensures
        is_identifier(target_name(l)),
    decreases l,
{
    match l {
        LValueView::Ident(name) => {},
        LValueView::LValue(inner) => lemma_target_is_identifier(*inner),
    }
}

/// An lvalue that stands in a text ends at or behind the place where it
/// begins.
proof fn lemma_lvalue_end(s: Seq<char>, i: int, j: int, l: LValueView)
    requires
        0 <= i,
        read_off_lvalue(s, i, l) == Some(j),
    ensures
        i <= j,
    decreases l,
{
    match l {
        LValueView::Ident(name) => {},
        LValueView::LValue(inner) => {
            let a = skip_ws(s, i + 1);
            lemma_skip_ws(s, i + 1);
            let k = read_off_lvalue(s, a, *inner)->0;
            lemma_lvalue_end(s, a, k, *inner);
            lemma_skip_ws(s, k);
        },
    }
}

/// A `return` that a stretch reads as is what is parsed in front of the
/// stretch.
proof fn lemma_reads_return(s: Seq<char>, from: int, i: int, j: int, exp: ExpressionView)
    requires
        grammatical(exp),
        0 <= from <= i,
        skip_ws(s, from) == i,
        read_off_statement(s, i, StatementView::Return(exp)) == Some(j),
    ensures
        statement(s, from) == (Outcome::Accept { value: StatementView::Return(exp), next: j }),
        i < j,
{
    lemma_word_is_read(s, from, i, Word::Return);
    assert(Word::Return.text() != Word::Int.text()) by {
        reveal_strlit("return");
        reveal_strlit("int");
    }
    lemma_reads_tail(s, i + 6, j, exp);
}

/// A statement that a stretch reads as is what is parsed in front of the
/// stretch; the stretch begins with a character that is neither white space
/// nor `}`.
pub proof fn lemma_reads_statement(s: Seq<char>, from: int, i: int, j: int, st: StatementView)
    requires
        grammatical_statement(st),
        0 <= from <= i,
        skip_ws(s, from) == i,
        read_off_statement(s, i, st) == Some(j),
    ensures
        statement(s, from) == (Outcome::Accept { value: st, next: j }),
        i < j <= s.len(),
        s[i] != '}',
{
    match st {
        StatementView::Decl(DeclarationView::Ident(name)) => {
            lemma_reads_plain_declaration(s, from, i, j, name);
        },
        StatementView::Decl(DeclarationView::IdentExp { ident, exp }) => {
            lemma_reads_initialising_declaration(s, from, i, j, ident, exp);
        },
        StatementView::Simp(simp) => {
            lemma_reads_assignment(s, from, i, j, simp);
        },
        StatementView::Return(exp) => {
            lemma_reads_return(s, from, i, j, exp);
        },
    }
    lemma_statement_advances(s, from);
    lemma_statement_begins(s, i, st);
}

/// A statement that stands in a text begins with a letter, `_` or `(`.
proof fn lemma_statement_begins(s: Seq<char>, i: int, st: StatementView)
    requires
        grammatical_statement(st),
        read_off_statement(s, i, st) is Some,
    ensures
        0 <= i < s.len(),
        s[i] != '}',
        !is_whitespace(s[i]),
{
    reveal_strlit("int");
    reveal_strlit("return");
    match st {
        StatementView::Simp(simp) => {
            match simp.lvalue {
                LValueView::Ident(name) => {
                    lemma_stands_index(s, i, name, 0);
                },
                LValueView::LValue(inner) => {},
            }
        },
        StatementView::Return(exp) => {
            lemma_stands_index(s, i, Word::Return.text(), 0);
        },
        _ => {
            lemma_stands_index(s, i, Word::Int.text(), 0);
        },
    }
}

/// A statement that is parsed is read by the stretch that it was parsed
/// from.
pub proof fn lemma_parsed_statement_reads(s: Seq<char>, from: int)
    requires
        0 <= from <= s.len(),
    ensures
        statement(s, from) matches Outcome::Accept { value, next } ==> read_off_statement(
            s,
            skip_ws(s, from),
            value,
        ) == Some(next),
{
    lemma_skip_ws(s, from);
    let i = skip_ws(s, from);
    lemma_tokens_advance(s, from);
    lemma_read_word_stands(s, from, Word::Int);
    lemma_read_word_stands(s, from, Word::Return);
    assert(Word::Return.text() != Word::Int.text()) by {
        reveal_strlit("return");
        reveal_strlit("int");
    }
    if word_at(s, i) == Word::Int.text() {
        if let Outcome::Accept { value: u, next: a } = keyword(s, from, Word::Int) {
            lemma_tokens_advance(s, a);
            lemma_identifier_is_source_text(s, a);
            lemma_skip_ws(s, a);
            if let Outcome::Accept { value: ident, next: b } = identifier(s, a) {
                lemma_tokens_advance(s, b);
                lemma_skip_ws(s, b);
                assert(stands_at(s, skip_ws(s, a), ident) && b == skip_ws(s, a) + ident.len()) by {
                    lemma_run_end(s, skip_ws(s, a) + 1, CharClass::Word);
                    assert(s.subrange(skip_ws(s, a), b).len() == b - skip_ws(s, a));
                }
                if let Outcome::Accept { value: v, next: c } = symbol(s, b, '=') {
                    lemma_parsed_tail_reads(s, c);
                    lemma_expression_advances(s, c);
                }
            }
        }
    } else if word_at(s, i) == Word::Return.text() {
        if let Outcome::Accept { value: u, next: a } = keyword(s, from, Word::Return) {
            lemma_parsed_tail_reads(s, a);
            lemma_expression_advances(s, a);
        }
    } else {
        lemma_parsed_lvalue_reads(s, from);
        lemma_lvalue_advances(s, from);
        if let Outcome::Accept { value: lv, next: a } = lvalue(s, from) {
            lemma_statement_advances(s, a);
            if let Outcome::Accept { value: op, next: b } = asnop(s, a) {
                lemma_asnop_stands(s, a, op);
                lemma_parsed_tail_reads(s, b);
                lemma_expression_advances(s, b);
            }
        }
    }
}

/// Statements that a text reads as behind `from`, and that the end of the
/// body follows, are what is parsed there.
pub proof fn lemma_reads_body(s: Seq<char>, from: int, f: int, sts: Seq<StatementView>)
    requires
        grammatical_statements(sts),
        0 <= from,
        read_off_body(s, from, sts) == Some(f),
        body_ends(s, f),
    ensures
        statements(s, from) == (Outcome::Accept { value: sts, next: f }),
        from <= f,
    decreases sts.len(),
{
    if sts.len() == 0 {
        assert(sts =~= Seq::<StatementView>::empty());
    } else {
        let i = skip_ws(s, from);
        let m = read_off_statement(s, i, sts[0])->0;
        lemma_skip_ws(s, from);
        assert(grammatical_statement(sts[0]));
        lemma_reads_statement(s, from, i, m, sts[0]);
        assert forall|k: int| 0 <= k < sts.drop_first().len() implies grammatical_statement(
            #[trigger] sts.drop_first()[k],
        ) by {
            assert(sts.drop_first()[k] == sts[k + 1]);
        }
        lemma_reads_body(s, m, f, sts.drop_first());
        assert(seq![sts[0]] + sts.drop_first() =~= sts);
    }
}

/// Statements that are parsed are read by the text behind the position
/// that they were parsed at, and the end of the body follows them.
pub proof fn lemma_parsed_body_reads(s: Seq<char>, from: int)
    requires
        0 <= from <= s.len(),
    ensures
        statements(s, from) matches Outcome::Accept { value, next } ==> read_off_body(
            s,
            from,
            value,
        ) == Some(next) && body_ends(s, next),
    decreases s.len() - from,
{
    if !body_ends(s, from) {
        lemma_parsed_statement_reads(s, from);
        lemma_statement_advances(s, from);
        let first = statement(s, from);
        if first.ends_within(from + 1, s) {
            lemma_parsed_body_reads(s, first->next);
            if let Outcome::Accept { value: rest, next } = statements(s, first->next) {
                let all = seq![first->value] + rest;
                assert(all.drop_first() =~= rest);
                assert(all[0] == first->value);
            }
        }
    }
}

/// A text is a program exactly if it reads as a program with a grammatical
/// body, and that body is the one that is parsed: no text reads as two
/// grammatical programs.
#[verifier::spinoff_prover]
pub proof fn lemma_program_is_what_reads(s: Seq<char>, p: Seq<StatementView>)
    ensures
        (to_end(program(s, 0), s) matches Outcome::Accept { value, .. } && value == p) <==> (
        grammatical_statements(p) && program_reads(s, p)),
{
    let a = skip_ws(s, 0);
    lemma_skip_ws(s, 0);
    if grammatical_statements(p) && program_reads(s, p) {
        let b = skip_ws(s, a + 3);
        let c = skip_ws(s, b + 4);
        let d = skip_ws(s, c + 1);
        let e = skip_ws(s, d + 1);
        let f = read_off_body(s, e + 1, p)->0;
        let g = skip_ws(s, f);
        lemma_word_is_read(s, 0, a, Word::Int);
        lemma_skip_ws(s, a + 3);
        lemma_word_is_read(s, a + 3, b, Word::Main);
        lemma_skip_ws(s, b + 4);
        lemma_skip_ws(s, c + 1);
        lemma_skip_ws(s, d + 1);
        lemma_reads_body(s, e + 1, f, p);
        lemma_program_of_parts(s, 0, a + 3, b + 4, c + 1, d + 1, e + 1, f, g + 1, p);
    }
    if let Outcome::Accept { value, next } = program(s, 0) {
        lemma_program_is_grammatical(s);
        lemma_parsed_program_reads(s);
    }
}

/// A program that is parsed is read by its text.
proof fn lemma_parsed_program_reads(s: Seq<char>)
    ensures
        program(s, 0) matches Outcome::Accept { value, next } ==> {
            &&& word_stands(s, skip_ws(s, 0), Word::Int)
            &&& word_stands(s, skip_ws(s, skip_ws(s, 0) + 3), Word::Main)
            &&& skip_ws(s, next - 1) == next - 1
            &&& (skip_ws(s, next) >= s.len() ==> program_reads(s, value))
        },
{
    reveal_strlit("int");
    reveal_strlit("main");
    lemma_skip_ws(s, 0);
    lemma_tokens_advance(s, 0);
    lemma_read_word_stands(s, 0, Word::Int);
    if let Outcome::Accept { value, next: a } = keyword(s, 0, Word::Int) {
        lemma_tokens_advance(s, a);
        lemma_read_word_stands(s, a, Word::Main);
        lemma_skip_ws(s, a);
        if let Outcome::Accept { value, next: b } = keyword(s, a, Word::Main) {
            lemma_tokens_advance(s, b);
            lemma_skip_ws(s, b);
            if let Outcome::Accept { value, next: c } = symbol(s, b, '(') {
                lemma_tokens_advance(s, c);
                lemma_skip_ws(s, c);
                if let Outcome::Accept { value, next: d } = symbol(s, c, ')') {
                    lemma_tokens_advance(s, d);
                    lemma_skip_ws(s, d);
                    if let Outcome::Accept { value, next: e } = symbol(s, d, '{') {
                        lemma_parsed_body_reads(s, e);
                        lemma_statements_advance(s, e);
                        if let Outcome::Accept { value: body, next: f } = statements(s, e) {
                            lemma_tokens_advance(s, f);
                            lemma_skip_ws(s, f);
                            if let Outcome::Accept { value, next: g } = symbol(s, f, '}') {
                                lemma_run_end_exact(s, g - 1, g - 1, CharClass::Whitespace);
                            }
                        }
                    }
                }
            }
        }
    }
}

/// Whether the whole text `s`, white space around it apart, reads as the
/// statement `st`.
pub open spec fn statement_reads(s: Seq<char>, st: StatementView) -> bool {
    read_off_statement(s, skip_ws(s, 0), st) matches Some(j) && skip_ws(s, j) >= s.len()
}

/// Whether the whole text `s`, white space around it apart, reads as the
/// statements `sts`.
pub open spec fn body_reads(s: Seq<char>, sts: Seq<StatementView>) -> bool {
    read_off_body(s, 0, sts) matches Some(j) && skip_ws(s, j) >= s.len()
}

/// Whether the whole text `s`, white space around it apart, reads as the
/// lvalue `l`.
pub open spec fn lvalue_reads(s: Seq<char>, l: LValueView) -> bool {
    read_off_lvalue(s, skip_ws(s, 0), l) matches Some(j) && skip_ws(s, j) >= s.len()
}

/// A text is a statement exactly if it reads as a grammatical statement,
/// and that statement is the one that is parsed.
pub proof fn lemma_statement_is_what_reads(s: Seq<char>, st: StatementView)
    ensures
        (to_end(statement(s, 0), s) matches Outcome::Accept { value, .. } && value == st) <==> (
        grammatical_statement(st) && statement_reads(s, st)),
{
    lemma_skip_ws(s, 0);
    if grammatical_statement(st) && statement_reads(s, st) {
        let i = skip_ws(s, 0);
        let j = read_off_statement(s, i, st)->0;
        lemma_reads_statement(s, 0, i, j, st);
    }
    if let Outcome::Accept { value, next } = statement(s, 0) {
        lemma_parsed_statement_reads(s, 0);
        crate::parser::shape::lemma_statement_is_grammatical(s, 0);
    }
}

/// A text is statements exactly if it reads as grammatical statements, and
/// those statements are the ones that are parsed.
pub proof fn lemma_body_is_what_reads(s: Seq<char>, sts: Seq<StatementView>)
    ensures
        (to_end(statements(s, 0), s) matches Outcome::Accept { value, .. } && value == sts) <==> (
        grammatical_statements(sts) && body_reads(s, sts)),
{
    if grammatical_statements(sts) && body_reads(s, sts) {
        let f = read_off_body(s, 0, sts)->0;
        lemma_reads_body(s, 0, f, sts);
    }
    if let Outcome::Accept { value, next } = statements(s, 0) {
        lemma_parsed_body_reads(s, 0);
        crate::parser::shape::lemma_statements_are_grammatical(s, 0);
    }
}

/// A text is an lvalue exactly if it reads as a grammatical lvalue, and
/// that lvalue is the one that is parsed.
pub proof fn lemma_lvalue_is_what_reads(s: Seq<char>, l: LValueView)
    ensures
        (to_end(lvalue(s, 0), s) matches Outcome::Accept { value, .. } && value == l) <==> (
        grammatical_lvalue(l) && lvalue_reads(s, l)),
{
    lemma_skip_ws(s, 0);
    if grammatical_lvalue(l) && lvalue_reads(s, l) {
        let i = skip_ws(s, 0);
        let j = read_off_lvalue(s, i, l)->0;
        lemma_lvalue_end(s, i, j, l);
        lemma_skip_ws(s, j);
        if j < s.len() {
            lemma_run_end(s, j, CharClass::Whitespace);
            lemma_word_characters_are_no_whitespace(s[j]);
        }
        lemma_reads_lvalue(s, 0, i, j, l);
    }
    if let Outcome::Accept { value, next } = lvalue(s, 0) {
        lemma_parsed_lvalue_reads(s, 0);
        crate::parser::shape::lemma_lvalue_is_grammatical(s, 0);
    }
}

} // verus!
