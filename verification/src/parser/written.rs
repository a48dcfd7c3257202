//! Trees written down as text, and read again.
//!
//! [`written`] writes an expression down in one fixed way: operands and
//! binary operators parted by one space, nothing else added. Reading what
//! was written of a grammatical tree gives the tree back. With
//! [`crate::parser::shape`] this says what the parser does without naming a
//! position: the trees that it hands out are the grammatical ones, and each
//! of them is the tree of its own text.

use vstd::prelude::*;
use crate::grammar::{
    AsNop,
    BinOperation,
    DeclarationView,
    ExpressionView,
    IntconstView,
    LValueView,
    SimpleInstructionView,
    StatementView,
};
use crate::parser::expression::{
    additive,
    additive_op,
    additive_rest,
    multiplicative,
    multiplicative_op,
    multiplicative_rest,
    primary,
    unary,
};
use crate::parser::lexical::{
    hex_starts,
    identifier,
    intconst,
    is_decimal_literal,
    is_digit,
    is_hex_digit,
    is_hex_literal,
    is_ident_part,
    is_ident_start,
    is_identifier,
    is_whitespace,
    run_end,
    skip_ws,
    symbol,
    word_at,
    word_end,
    CharClass,
    Outcome,
};
use crate::parser::lexical::{keyword, lemma_run_end_from_inside, Word};
use crate::parser::shape::{
    lemma_program_is_grammatical,
    grammatical,
    grammatical_lvalue,
    grammatical_statement,
    grammatical_statements,
    level,
};
use crate::parser::statement::{
    lemma_program_of_parts,
    asnop,
    body_ends,
    declaration,
    lvalue,
    program,
    simple_instruction,
    statement,
    statements,
};
use crate::parser::to_end;

verus! {

/// The character that `op` is written as.
pub open spec fn op_char(op: BinOperation) -> char {
    match op {
        BinOperation::Plus => '+',
        BinOperation::Minus => '-',
        BinOperation::Multiplication => '*',
        BinOperation::Division => '/',
        BinOperation::Mod => '%',
    }
}

/// The expression `e` as text: a binary operator between its operands with
/// one space on either side, a unary minus right in front of its operand,
/// parentheses right around what they hold, names and literals as they are.
pub open spec fn written(e: ExpressionView) -> Seq<char>
    decreases e,
{
    match e {
        ExpressionView::NestedExp(inner) => seq!['('] + written(*inner) + seq![')'],
        ExpressionView::Intconst(IntconstView::Decnum(t)) => t,
        ExpressionView::Intconst(IntconstView::Hexnum(t)) => t,
        ExpressionView::Ident(name) => name,
        ExpressionView::Binop { left, op, right } => written(*left) + seq![' ', op_char(op), ' ']
            + written(*right),
        ExpressionView::Unop { op, right } => seq!['-'] + written(*right),
    }
}

/// Whether the text `t` stands in `s` at position `i`.
pub open spec fn stands_at(s: Seq<char>, i: int, t: Seq<char>) -> bool {
    0 <= i && i + t.len() <= s.len() && s.subrange(i, i + t.len()) == t
}

/// Whether a word or a literal that ends in front of `k` ends there for
/// good: the text ends at `k`, or a character stands there that no word
/// goes on with.
pub open spec fn stops_at(s: Seq<char>, k: int) -> bool {
    k >= s.len() || !is_ident_part(s[k])
}

/// Whether no `*`, `/` or `%` is the first thing behind `k`.
pub open spec fn no_product_follows(s: Seq<char>, k: int) -> bool {
    skip_ws(s, k) >= s.len() || multiplicative_op(s[skip_ws(s, k)]) is None
}

/// Whether no `+` or `-` is the first thing behind `k`.
pub open spec fn no_sum_follows(s: Seq<char>, k: int) -> bool {
    skip_ws(s, k) >= s.len() || additive_op(s[skip_ws(s, k)]) is None
}

/// Whether an expression can begin with `c`.
pub open spec fn begins_expression(c: char) -> bool {
    c == '(' || c == '-' || is_digit(c) || is_ident_start(c)
}

/// A text stands where its parts stand one behind the other.
pub proof fn lemma_stands_split(s: Seq<char>, i: int, a: Seq<char>, b: Seq<char>)
    requires
        stands_at(s, i, a + b),
    ensures
        stands_at(s, i, a),
        stands_at(s, i + a.len(), b),
{
    let whole = s.subrange(i, i + (a + b).len());
    assert(s.subrange(i, i + a.len()) =~= whole.subrange(0, a.len() as int));
    assert((a + b).subrange(0, a.len() as int) =~= a);
    assert(s.subrange(i + a.len(), i + a.len() + b.len()) =~= whole.subrange(
        a.len() as int,
        (a + b).len() as int,
    ));
    assert((a + b).subrange(a.len() as int, (a + b).len() as int) =~= b);
}

/// The characters of a text that stands in `s` are those of `s`.
pub proof fn lemma_stands_index(s: Seq<char>, i: int, t: Seq<char>, k: int)
    requires
        stands_at(s, i, t),
        0 <= k < t.len(),
    ensures
        s[i + k] == t[k],
{
    assert(s.subrange(i, i + t.len())[k] == s[i + k]);
}

/// A run ends where the first character stands that is not of its class.
pub proof fn lemma_run_end_exact(s: Seq<char>, i: int, e: int, class: CharClass)
    requires
        0 <= i <= e <= s.len(),
        forall|k: int| i <= k < e ==> class.holds(#[trigger] s[k]),
        e == s.len() || !class.holds(s[e]),
    ensures
        run_end(s, i, class) == e,
    decreases e - i,
{
    if i < e {
        lemma_run_end_exact(s, i + 1, e, class);
    }
}

/// What is written of a grammatical expression is not empty and begins
/// with a character that an expression can begin with; that of a literal, a
/// name or parentheses does not begin with `-`.
pub proof fn lemma_written_begins(e: ExpressionView)
    requires
        grammatical(e),
    ensures
        written(e).len() > 0,
        begins_expression(written(e)[0]),
        !is_whitespace(written(e)[0]),
        level(e) == 3 ==> written(e)[0] != '-',
    decreases e,
{
    match e {
        ExpressionView::Binop { left, op, right } => {
            lemma_written_begins(*left);
        },
        _ => {},
    }
}

/// An identifier that stands at `i` and stops behind its last character is
/// read as it stands.
pub proof fn lemma_written_identifier(s: Seq<char>, from: int, i: int, name: Seq<char>)
    requires
        is_identifier(name),
        0 <= from <= i,
        skip_ws(s, from) == i,
        stands_at(s, i, name),
        stops_at(s, i + name.len()),
    ensures
        identifier(s, from) == (Outcome::Accept { value: name, next: i + name.len() }),
{
    let end = i + name.len();
    assert forall|k: int| i <= k < end implies is_ident_part(#[trigger] s[k]) by {
        lemma_stands_index(s, i, name, k - i);
    }
    lemma_stands_index(s, i, name, 0);
    lemma_run_end_exact(s, i + 1, end, CharClass::Word);
    assert(word_end(s, i) == end);
}

/// A literal that stands at `i` and stops behind its last character is
/// read as it stands.
pub proof fn lemma_written_literal(s: Seq<char>, from: int, i: int, t: Seq<char>)
    requires
        0 <= from <= i,
        skip_ws(s, from) == i,
        stands_at(s, i, t),
        stops_at(s, i + t.len()),
    ensures
        is_decimal_literal(t) ==> intconst(s, from) == (Outcome::Accept {
            value: IntconstView::Decnum(t),
            next: i + t.len(),
        }),
        is_hex_literal(t) ==> intconst(s, from) == (Outcome::Accept {
            value: IntconstView::Hexnum(t),
            next: i + t.len(),
        }),
{
    let end = i + t.len();
    if is_decimal_literal(t) {
        assert forall|k: int| i <= k < end implies is_digit(#[trigger] s[k]) by {
            lemma_stands_index(s, i, t, k - i);
        }
        lemma_stands_index(s, i, t, 0);
        lemma_run_end_exact(s, i, end, CharClass::Digit);
        if t.len() > 1 {
            lemma_stands_index(s, i, t, 1);
        }
        assert(!hex_starts(s, i));
    }
    if is_hex_literal(t) {
        assert forall|k: int| i + 2 <= k < end implies is_hex_digit(#[trigger] s[k]) by {
            lemma_stands_index(s, i, t, k - i);
        }
        lemma_stands_index(s, i, t, 0);
        lemma_stands_index(s, i, t, 1);
        lemma_stands_index(s, i, t, 2);
        lemma_run_end_exact(s, i + 2, end, CharClass::HexDigit);
        assert(hex_starts(s, i));
    }
}

/// A literal, a name or an expression in parentheses that was written at
/// `i` is read as it was written.
pub proof fn lemma_written_primary(s: Seq<char>, from: int, i: int, e: ExpressionView)
    requires
        grammatical(e),
        level(e) == 3,
        0 <= from <= i,
        skip_ws(s, from) == i,
        stands_at(s, i, written(e)),
        stops_at(s, i + written(e).len()),
    ensures
        primary(s, from) == (Outcome::Accept { value: e, next: i + written(e).len() }),
    decreases e, 1int,
{
    lemma_written_begins(e);
    lemma_stands_index(s, i, written(e), 0);
    match e {
        ExpressionView::NestedExp(inner) => {
            let body = written(*inner);
            let close = i + 1 + body.len();
            lemma_stands_split(s, i, seq!['('] + body, seq![')']);
            lemma_stands_split(s, i, seq!['('], body);
            lemma_stands_index(s, close, seq![')'], 0);
            lemma_written_begins(*inner);
            lemma_stands_index(s, i + 1, body, 0);
            lemma_written_sum(s, i + 1, i + 1, *inner);
            assert(additive(s, i + 1) == (Outcome::Accept { value: *inner, next: close }));
            assert(symbol(s, close, ')') == (Outcome::Accept { value: (), next: close + 1 }));
        },
        ExpressionView::Intconst(IntconstView::Decnum(t)) => {
            lemma_written_literal(s, from, i, t);
        },
        ExpressionView::Intconst(IntconstView::Hexnum(t)) => {
            lemma_written_literal(s, from, i, t);
        },
        ExpressionView::Ident(name) => {
            lemma_written_identifier(s, from, i, name);
        },
        _ => {},
    }
}

/// A unary expression or stronger that was written at `i` is read as it was
/// written.
pub proof fn lemma_written_unary(s: Seq<char>, from: int, i: int, e: ExpressionView)
    requires
        grammatical(e),
        level(e) >= 2,
        0 <= from <= i,
        skip_ws(s, from) == i,
        stands_at(s, i, written(e)),
        stops_at(s, i + written(e).len()),
    ensures
        unary(s, from) == (Outcome::Accept { value: e, next: i + written(e).len() }),
    decreases e, 2int,
{
    lemma_written_begins(e);
    lemma_stands_index(s, i, written(e), 0);
    match e {
        ExpressionView::Unop { op, right } => {
            let body = written(*right);
            lemma_stands_split(s, i, seq!['-'], body);
            lemma_written_begins(*right);
            lemma_stands_index(s, i + 1, body, 0);
            lemma_written_unary(s, i + 1, i + 1, *right);
        },
        _ => {
            lemma_written_primary(s, from, i, e);
        },
    }
}

/// Behind a product or stronger that was written at `i`, the product goes
/// on with what was written as its left side.
pub proof fn lemma_written_product(s: Seq<char>, from: int, i: int, e: ExpressionView)
    requires
        grammatical(e),
        level(e) >= 1,
        0 <= from <= i,
        skip_ws(s, from) == i,
        stands_at(s, i, written(e)),
        stops_at(s, i + written(e).len()),
    ensures
        multiplicative(s, from) == multiplicative_rest(s, e, i + written(e).len()),
    decreases e, 3int,
{
    match e {
        ExpressionView::Binop { left, op, right } => {
            let front = written(*left);
            let back = written(*right);
            let mid = seq![' ', op_char(op), ' '];
            let k = i + front.len();
            lemma_stands_split(s, i, front + mid, back);
            lemma_stands_split(s, i, front, mid);
            lemma_stands_index(s, k, mid, 0);
            lemma_stands_index(s, k, mid, 1);
            lemma_stands_index(s, k, mid, 2);
            lemma_written_begins(*right);
            lemma_stands_index(s, k + 3, back, 0);
            lemma_written_product(s, from, i, *left);
            lemma_run_end_exact(s, k, k + 1, CharClass::Whitespace);
            lemma_run_end_exact(s, k + 2, k + 3, CharClass::Whitespace);
            lemma_written_unary(s, k + 2, k + 3, *right);
        },
        _ => {
            lemma_written_unary(s, from, i, e);
        },
    }
}

/// Behind an expression that was written at `i`, and that no `*`, `/` or
/// `%` follows, the sum goes on with what was written as its left side.
pub proof fn lemma_written_sum(s: Seq<char>, from: int, i: int, e: ExpressionView)
    requires
        grammatical(e),
        0 <= from <= i,
        skip_ws(s, from) == i,
        stands_at(s, i, written(e)),
        stops_at(s, i + written(e).len()),
        no_product_follows(s, i + written(e).len()),
    ensures
        additive(s, from) == additive_rest(s, e, i + written(e).len()),
        no_sum_follows(s, i + written(e).len()) ==> additive(s, from) == (Outcome::Accept {
            value: e,
            next: i + written(e).len(),
        }),
    decreases e, 4int,
{
    let end = i + written(e).len();
    if level(e) >= 1 {
        lemma_written_product(s, from, i, e);
        assert(multiplicative_rest(s, e, end) == (Outcome::Accept { value: e, next: end }));
    } else {
        match e {
            ExpressionView::Binop { left, op, right } => {
                let front = written(*left);
                let back = written(*right);
                let mid = seq![' ', op_char(op), ' '];
                let k = i + front.len();
                lemma_stands_split(s, i, front + mid, back);
                lemma_stands_split(s, i, front, mid);
                lemma_stands_index(s, k, mid, 0);
                lemma_stands_index(s, k, mid, 1);
                lemma_stands_index(s, k, mid, 2);
                lemma_written_begins(*right);
                lemma_stands_index(s, k + 3, back, 0);
                lemma_run_end_exact(s, k, k + 1, CharClass::Whitespace);
                lemma_run_end_exact(s, k + 2, k + 3, CharClass::Whitespace);
                lemma_written_sum(s, from, i, *left);
                lemma_written_product(s, k + 2, k + 3, *right);
                assert(multiplicative_rest(s, *right, end) == (Outcome::Accept {
                    value: *right,
                    next: end,
                }));
            },
            _ => {},
        }
    }
}

/// Reading what was written of a grammatical expression gives the
/// expression back: operators group and bind in the text as they do in the
/// tree.
pub proof fn lemma_expression_round_trip(e: ExpressionView)
    requires
        grammatical(e),
    ensures
        to_end(additive(written(e), 0), written(e)) == (Outcome::Accept {
            value: e,
            next: written(e).len() as int,
        }),
{
    let s = written(e);
    lemma_written_begins(e);
    assert(s.subrange(0, s.len() as int) =~= s);
    lemma_written_sum(s, 0, 0, e);
}

/// The lvalue `l` as text: its name in its parentheses.
pub open spec fn written_lvalue(l: LValueView) -> Seq<char>
    decreases l,
{
    match l {
        LValueView::Ident(name) => name,
        LValueView::LValue(inner) => seq!['('] + written_lvalue(*inner) + seq![')'],
    }
}

/// The assignment operator `op` as text.
pub open spec fn written_asnop(op: AsNop) -> Seq<char> {
    match op {
        AsNop::Equal => seq!['='],
        AsNop::PlusEqual => seq!['+', '='],
        AsNop::MinusEqual => seq!['-', '='],
        AsNop::MultEqual => seq!['*', '='],
        AsNop::DivEqual => seq!['/', '='],
        AsNop::ModEqual => seq!['%', '='],
    }
}

/// The statement `st` as text, with the `;` that ends it: words, names,
/// operators and expressions parted by one space.
pub open spec fn written_statement(st: StatementView) -> Seq<char> {
    match st {
        StatementView::Decl(DeclarationView::Ident(name)) => seq!['i', 'n', 't', ' '] + name
            + seq![';'],
        StatementView::Decl(DeclarationView::IdentExp { ident, exp }) => seq!['i', 'n', 't', ' ']
            + ident + seq![' ', '=', ' '] + written(exp) + seq![';'],
        StatementView::Simp(simp) => written_lvalue(simp.lvalue) + seq![' '] + written_asnop(
            simp.asnop,
        ) + seq![' '] + written(simp.exp) + seq![';'],
        StatementView::Return(exp) => seq!['r', 'e', 't', 'u', 'r', 'n', ' '] + written(exp)
            + seq![';'],
    }
}

/// The statements `sts` as text, one space behind each.
pub open spec fn written_statements(sts: Seq<StatementView>) -> Seq<char>
    decreases sts.len(),
{
    if sts.len() == 0 {
        Seq::empty()
    } else {
        written_statement(sts[0]) + seq![' '] + written_statements(sts.drop_first())
    }
}

/// The program with the body `p` as text.
pub open spec fn written_program(p: Seq<StatementView>) -> Seq<char> {
    seq!['i', 'n', 't', ' ', 'm', 'a', 'i', 'n', '(', ')', ' ', '{', ' '] + written_statements(p)
        + seq!['}']
}

/// Where statements end that were read at `from` and written at `i`: at
/// `from` if there are none, else behind the `;` of the last.
pub open spec fn statements_end(from: int, i: int, sts: Seq<StatementView>) -> int {
    if sts.len() == 0 {
        from
    } else {
        i + written_statements(sts).len() - 1
    }
}

/// An lvalue that was written at `i` is read as it was written.
pub proof fn lemma_written_lvalue(s: Seq<char>, from: int, i: int, l: LValueView)
    requires
        grammatical_lvalue(l),
        0 <= from <= i,
        skip_ws(s, from) == i,
        stands_at(s, i, written_lvalue(l)),
        stops_at(s, i + written_lvalue(l).len()),
    ensures
        lvalue(s, from) == (Outcome::Accept { value: l, next: i + written_lvalue(l).len() }),
        written_lvalue(l).len() > 0,
        written_lvalue(l)[0] == '(' || is_ident_start(written_lvalue(l)[0]),
    decreases l,
{
    match l {
        LValueView::Ident(name) => {
            lemma_written_identifier(s, from, i, name);
            lemma_stands_index(s, i, name, 0);
        },
        LValueView::LValue(inner) => {
            let body = written_lvalue(*inner);
            let close = i + 1 + body.len();
            lemma_stands_split(s, i, seq!['('] + body, seq![')']);
            lemma_stands_split(s, i, seq!['('], body);
            lemma_stands_index(s, i, seq!['('], 0);
            lemma_stands_index(s, close, seq![')'], 0);
            lemma_lvalue_begins(*inner);
            lemma_stands_index(s, i + 1, body, 0);
            lemma_run_end_exact(s, i + 1, i + 1, CharClass::Whitespace);
            lemma_written_lvalue(s, i + 1, i + 1, *inner);
            lemma_run_end_exact(s, close, close, CharClass::Whitespace);
            assert(symbol(s, close, ')') == (Outcome::Accept { value: (), next: close + 1 }));
        },
    }
}

/// What is written of a grammatical lvalue begins with `(` or with the
/// first character of a name.
pub proof fn lemma_lvalue_begins(l: LValueView)
    requires
        grammatical_lvalue(l),
    ensures
        written_lvalue(l).len() > 0,
        written_lvalue(l)[0] == '(' || is_ident_start(written_lvalue(l)[0]),
        !is_whitespace(written_lvalue(l)[0]),
{
}

/// An expression that was written at `i`, one space behind `from`, with a
/// `;` behind it, is read as it was written, and so is the `;`.
proof fn lemma_written_tail(s: Seq<char>, from: int, e: ExpressionView)
    requires
        grammatical(e),
        0 <= from,
        stands_at(s, from, seq![' '] + written(e) + seq![';']),
    ensures
        additive(s, from) == (Outcome::Accept { value: e, next: from + 1 + written(e).len() }),
        symbol(s, from + 1 + written(e).len(), ';') == (Outcome::Accept {
            value: (),
            next: from + 2 + written(e).len(),
        }),
{
    let body = written(e);
    let end = from + 1 + body.len();
    lemma_stands_split(s, from, seq![' '] + body, seq![';']);
    lemma_stands_split(s, from, seq![' '], body);
    lemma_stands_index(s, from, seq![' '], 0);
    lemma_stands_index(s, end, seq![';'], 0);
    lemma_written_begins(e);
    lemma_stands_index(s, from + 1, body, 0);
    lemma_run_end_exact(s, from, from + 1, CharClass::Whitespace);
    lemma_run_end_exact(s, end, end, CharClass::Whitespace);
    lemma_written_sum(s, from, from + 1, e);
}

/// The word `word` that stands at `i`, with a space behind it, is read.
proof fn lemma_written_word(s: Seq<char>, from: int, i: int, word: Word)
    requires
        0 <= from <= i,
        skip_ws(s, from) == i,
        stands_at(s, i, word.text() + seq![' ']),
    ensures
        keyword(s, from, word) == (Outcome::Accept { value: (), next: i + word.text().len() }),
        word_at(s, i) == word.text(),
{
    reveal_strlit("int");
    reveal_strlit("main");
    reveal_strlit("return");
    let w = word.text();
    lemma_stands_split(s, i, w, seq![' ']);
    lemma_stands_index(s, i + w.len(), seq![' '], 0);
    assert forall|k: int| i <= k < i + w.len() implies is_ident_part(#[trigger] s[k]) by {
        lemma_stands_index(s, i, w, k - i);
    }
    lemma_stands_index(s, i, w, 0);
    lemma_run_end_exact(s, i + 1, i + w.len(), CharClass::Word);
}

/// A declaration without a value that was written at `i` is read as it was
/// written.
proof fn lemma_written_plain_declaration(s: Seq<char>, from: int, i: int, name: Seq<char>)
    requires
        is_identifier(name),
        0 <= from <= i,
        skip_ws(s, from) == i,
        stands_at(s, i, written_statement(StatementView::Decl(DeclarationView::Ident(name)))),
    ensures
        statement(s, from) == (Outcome::Accept {
            value: StatementView::Decl(DeclarationView::Ident(name)),
            next: i + 5 + name.len(),
        }),
{
    let head = seq!['i', 'n', 't', ' '];
    let a = i + 3;
    let b = i + 4 + name.len();
    assert(head =~= Word::Int.text() + seq![' ']) by {
        reveal_strlit("int");
    }
    lemma_stands_split(s, i, head + name, seq![';']);
    lemma_stands_split(s, i, head, name);
    lemma_written_word(s, from, i, Word::Int);
    assert(identifier(s, a) == (Outcome::Accept { value: name, next: b })) by {
        lemma_stands_index(s, i, head, 3);
        lemma_stands_index(s, i + 4, name, 0);
        lemma_stands_index(s, b, seq![';'], 0);
        lemma_run_end_exact(s, a, a + 1, CharClass::Whitespace);
        lemma_written_identifier(s, a, a + 1, name);
    }
    assert(symbol(s, b, '=') is Reject && symbol(s, b, ';') == (Outcome::Accept {
        value: (),
        next: b + 1,
    })) by {
        lemma_stands_index(s, b, seq![';'], 0);
        lemma_run_end_exact(s, b, b, CharClass::Whitespace);
    }
    assert(declaration(s, from) == (Outcome::Accept {
        value: DeclarationView::Ident(name),
        next: b,
    }));
}

/// A declaration with a value that was written at `i` is read as it was
/// written.
proof fn lemma_written_initialising_declaration(
    s: Seq<char>,
    from: int,
    i: int,
    ident: Seq<char>,
    exp: ExpressionView,
)
    requires
        is_identifier(ident),
        grammatical(exp),
        0 <= from <= i,
        skip_ws(s, from) == i,
        stands_at(
            s,
            i,
            written_statement(StatementView::Decl(DeclarationView::IdentExp { ident, exp })),
        ),
    ensures
        statement(s, from) == (Outcome::Accept {
            value: StatementView::Decl(DeclarationView::IdentExp { ident, exp }),
            next: i + 8 + ident.len() + written(exp).len(),
        }),
{
    let head = seq!['i', 'n', 't', ' '];
    let mid = seq![' ', '=', ' '];
    let body = written(exp);
    let a = i + 3;
    let b = i + 4 + ident.len();
    let end = b + 3 + body.len();
    assert(head =~= Word::Int.text() + seq![' ']) by {
        reveal_strlit("int");
    }
    lemma_stands_split(s, i, head + ident + mid + body, seq![';']);
    lemma_stands_split(s, i, head + ident + mid, body);
    lemma_stands_split(s, i, head + ident, mid);
    lemma_stands_split(s, i, head, ident);
    lemma_written_word(s, from, i, Word::Int);
    assert(s[b] == ' ' && s[b + 1] == '=' && s[b + 2] == ' ') by {
        lemma_stands_index(s, b, mid, 0);
        lemma_stands_index(s, b, mid, 1);
        lemma_stands_index(s, b, mid, 2);
    }
    assert(identifier(s, a) == (Outcome::Accept { value: ident, next: b })) by {
        lemma_stands_index(s, i, head, 3);
        lemma_stands_index(s, i + 4, ident, 0);
        lemma_run_end_exact(s, a, a + 1, CharClass::Whitespace);
        lemma_written_identifier(s, a, a + 1, ident);
    }
    assert(symbol(s, b, '=') == (Outcome::Accept { value: (), next: b + 2 })) by {
        lemma_run_end_exact(s, b, b + 1, CharClass::Whitespace);
    }
    assert(additive(s, b + 2) == (Outcome::Accept { value: exp, next: end }) && symbol(s, end, ';')
        == (Outcome::Accept { value: (), next: end + 1 })) by {
        assert(s.subrange(b + 2, b + 2 + (seq![' '] + body + seq![';']).len()) =~= seq![' ']
            + body + seq![';']) by {
            assert(s.subrange(b + 3, b + 3 + body.len()) == body);
            lemma_stands_index(s, end, seq![';'], 0);
        }
        lemma_written_tail(s, b + 2, exp);
    }
    assert(declaration(s, from) == (Outcome::Accept {
        value: DeclarationView::IdentExp { ident, exp },
        next: end,
    }));
}

/// An assignment that was written at `i` is read as it was written.
proof fn lemma_written_assignment(s: Seq<char>, from: int, i: int, simp: SimpleInstructionView)
    requires
        grammatical_lvalue(simp.lvalue),
        grammatical(simp.exp),
        0 <= from <= i,
        skip_ws(s, from) == i,
        stands_at(s, i, written_statement(StatementView::Simp(simp))),
    ensures
        statement(s, from) == (Outcome::Accept {
            value: StatementView::Simp(simp),
            next: i + written_statement(StatementView::Simp(simp)).len(),
        }),
{
    let place = written_lvalue(simp.lvalue);
    let op = written_asnop(simp.asnop);
    let body = written(simp.exp);
    let a = i + place.len();
    let b = a + 1 + op.len();
    let end = b + 1 + body.len();
    lemma_stands_split(s, i, place + seq![' '] + op + seq![' '] + body, seq![';']);
    lemma_stands_split(s, i, place + seq![' '] + op + seq![' '], body);
    lemma_stands_split(s, i, place + seq![' '] + op, seq![' ']);
    lemma_stands_split(s, i, place + seq![' '], op);
    lemma_stands_split(s, i, place, seq![' ']);
    assert(s[a] == ' ' && s[b] == ' ') by {
        lemma_stands_index(s, a, seq![' '], 0);
        lemma_stands_index(s, b, seq![' '], 0);
    }
    assert(lvalue(s, from) == (Outcome::Accept { value: simp.lvalue, next: a })) by {
        lemma_written_lvalue(s, from, i, simp.lvalue);
    }
    assert(asnop(s, a) == (Outcome::Accept { value: simp.asnop, next: b })) by {
        lemma_stands_index(s, a + 1, op, 0);
        if op.len() > 1 {
            lemma_stands_index(s, a + 1, op, 1);
        }
        lemma_run_end_exact(s, a, a + 1, CharClass::Whitespace);
    }
    assert(additive(s, b) == (Outcome::Accept { value: simp.exp, next: end }) && symbol(s, end, ';')
        == (Outcome::Accept { value: (), next: end + 1 })) by {
        assert(s.subrange(b, b + (seq![' '] + body + seq![';']).len()) =~= seq![' '] + body
            + seq![';']) by {
            assert(s.subrange(b + 1, b + 1 + body.len()) == body);
            lemma_stands_index(s, end, seq![';'], 0);
        }
        lemma_written_tail(s, b, simp.exp);
    }
    assert(word_at(s, i) != Word::Int.text() && word_at(s, i) != Word::Return.text()) by {
        lemma_simple_begins_with_no_word(s, i, simp.lvalue);
    }
    assert(simple_instruction(s, from) == (Outcome::Accept { value: simp, next: end }));
}

/// A `return` that was written at `i` is read as it was written.
proof fn lemma_written_return(s: Seq<char>, from: int, i: int, exp: ExpressionView)
    requires
        grammatical(exp),
        0 <= from <= i,
        skip_ws(s, from) == i,
        stands_at(s, i, written_statement(StatementView::Return(exp))),
    ensures
        statement(s, from) == (Outcome::Accept {
            value: StatementView::Return(exp),
            next: i + 8 + written(exp).len(),
        }),
{
    let head = seq!['r', 'e', 't', 'u', 'r', 'n', ' '];
    let body = written(exp);
    let a = i + 6;
    let end = a + 1 + body.len();
    assert(head =~= Word::Return.text() + seq![' ']) by {
        reveal_strlit("return");
    }
    assert(Word::Return.text() != Word::Int.text()) by {
        reveal_strlit("return");
        reveal_strlit("int");
    }
    lemma_stands_split(s, i, head + body, seq![';']);
    lemma_stands_split(s, i, head, body);
    lemma_written_word(s, from, i, Word::Return);
    assert(additive(s, a) == (Outcome::Accept { value: exp, next: end }) && symbol(s, end, ';')
        == (Outcome::Accept { value: (), next: end + 1 })) by {
        assert(s.subrange(a, a + (seq![' '] + body + seq![';']).len()) =~= seq![' '] + body
            + seq![';']) by {
            lemma_stands_index(s, i, head, 6);
            assert(s.subrange(a + 1, a + 1 + body.len()) == body);
            lemma_stands_index(s, end, seq![';'], 0);
        }
        lemma_written_tail(s, a, exp);
    }
}

/// A statement that was written at `i` is read as it was written.
pub proof fn lemma_written_statement(s: Seq<char>, from: int, i: int, st: StatementView)
    requires
        grammatical_statement(st),
        0 <= from <= i,
        skip_ws(s, from) == i,
        stands_at(s, i, written_statement(st)),
    ensures
        statement(s, from) == (Outcome::Accept { value: st, next: i + written_statement(st).len() }),
{
    match st {
        StatementView::Decl(DeclarationView::Ident(name)) => {
            lemma_written_plain_declaration(s, from, i, name);
        },
        StatementView::Decl(DeclarationView::IdentExp { ident, exp }) => {
            lemma_written_initialising_declaration(s, from, i, ident, exp);
        },
        StatementView::Simp(simp) => {
            lemma_written_assignment(s, from, i, simp);
        },
        StatementView::Return(exp) => {
            lemma_written_return(s, from, i, exp);
        },
    }
}

/// The word at the start of an lvalue that was written is neither `int` nor
/// `return`.
proof fn lemma_simple_begins_with_no_word(s: Seq<char>, i: int, l: LValueView)
    requires
        grammatical_lvalue(l),
        stands_at(s, i, written_lvalue(l)),
        stops_at(s, i + written_lvalue(l).len()),
    ensures
        word_at(s, i) != Word::Int.text(),
        word_at(s, i) != Word::Return.text(),
{
    reveal_strlit("int");
    reveal_strlit("return");
    lemma_lvalue_begins(l);
    lemma_stands_index(s, i, written_lvalue(l), 0);
    match l {
        LValueView::Ident(name) => {
            assert forall|k: int| i <= k < i + name.len() implies is_ident_part(
                #[trigger] s[k],
            ) by {
                lemma_stands_index(s, i, name, k - i);
            }
            lemma_run_end_exact(s, i + 1, i + name.len(), CharClass::Word);
            assert(word_at(s, i) == name);
        },
        LValueView::LValue(inner) => {
            assert(word_at(s, i).len() == 0);
        },
    }
}

/// Statements that were written at `i`, behind white space from `from` on,
/// and that the end of the body follows, are read as they were written.
pub proof fn lemma_written_statements(s: Seq<char>, from: int, i: int, sts: Seq<StatementView>)
    requires
        grammatical_statements(sts),
        0 <= from <= i,
        forall|k: int| from <= k < i ==> is_whitespace(#[trigger] s[k]),
        stands_at(s, i, written_statements(sts)),
        body_ends(s, i + written_statements(sts).len()),
    ensures
        statements(s, from) == (Outcome::Accept { value: sts, next: statements_end(from, i, sts) }),
    decreases sts.len(),
{
    lemma_run_end_from_inside(s, from, i, CharClass::Whitespace);
    if sts.len() == 0 {
        assert(sts =~= Seq::<StatementView>::empty());
    } else {
        let first = written_statement(sts[0]);
        let rest = written_statements(sts.drop_first());
        let a = i + first.len();
        lemma_stands_split(s, i, first + seq![' '], rest);
        lemma_stands_split(s, i, first, seq![' ']);
        lemma_stands_index(s, a, seq![' '], 0);
        assert(grammatical_statement(sts[0]));
        lemma_statement_begins(sts[0]);
        lemma_stands_index(s, i, first, 0);
        lemma_run_end_exact(s, from, i, CharClass::Whitespace);
        lemma_written_statement(s, from, i, sts[0]);
        assert forall|k: int| 0 <= k < sts.drop_first().len() implies grammatical_statement(
            #[trigger] sts.drop_first()[k],
        ) by {
            assert(sts.drop_first()[k] == sts[k + 1]);
        }
        lemma_written_statements(s, a, a + 1, sts.drop_first());
        assert(seq![sts[0]] + sts.drop_first() =~= sts);
    }
}

/// What is written of a grammatical statement begins with a character that
/// is neither white space nor `}`.
pub proof fn lemma_statement_begins(st: StatementView)
    requires
        grammatical_statement(st),
    ensures
        written_statement(st).len() > 0,
        !is_whitespace(written_statement(st)[0]),
        written_statement(st)[0] != '}',
{
    match st {
        StatementView::Simp(simp) => {
            lemma_lvalue_begins(simp.lvalue);
        },
        _ => {},
    }
}

/// The head of a program that was written at the start of `s` is read,
/// up to its `{`.
proof fn lemma_written_head(s: Seq<char>)
    requires
        stands_at(s, 0, seq!['i', 'n', 't', ' ', 'm', 'a', 'i', 'n', '(', ')', ' ', '{', ' ']),
    ensures
        keyword(s, 0, Word::Int) == (Outcome::Accept { value: (), next: 3 }),
        keyword(s, 3, Word::Main) == (Outcome::Accept { value: (), next: 8 }),
        symbol(s, 8, '(') == (Outcome::Accept { value: (), next: 9 }),
        symbol(s, 9, ')') == (Outcome::Accept { value: (), next: 10 }),
        symbol(s, 10, '{') == (Outcome::Accept { value: (), next: 12 }),
        s[12] == ' ',
{
    let head = seq!['i', 'n', 't', ' ', 'm', 'a', 'i', 'n', '(', ')', ' ', '{', ' '];
    assert forall|k: int| 0 <= k < 13 implies s[k] == head[k] by {
        lemma_stands_index(s, 0, head, k);
    }
    assert(keyword(s, 0, Word::Int) == (Outcome::Accept { value: (), next: 3 })) by {
        reveal_strlit("int");
        lemma_run_end_exact(s, 0, 0, CharClass::Whitespace);
        lemma_run_end_exact(s, 1, 3, CharClass::Word);
        assert(word_at(s, 0) =~= Word::Int.text());
    }
    assert(keyword(s, 3, Word::Main) == (Outcome::Accept { value: (), next: 8 })) by {
        reveal_strlit("main");
        lemma_run_end_exact(s, 3, 4, CharClass::Whitespace);
        lemma_run_end_exact(s, 5, 8, CharClass::Word);
        assert(word_at(s, 4) =~= Word::Main.text());
    }
    lemma_run_end_exact(s, 8, 8, CharClass::Whitespace);
    lemma_run_end_exact(s, 9, 9, CharClass::Whitespace);
    lemma_run_end_exact(s, 10, 11, CharClass::Whitespace);
}

/// The parts of a program that was written stand one behind the other.
proof fn lemma_program_parts_stand(p: Seq<StatementView>)
    ensures
        stands_at(
            written_program(p),
            0,
            seq!['i', 'n', 't', ' ', 'm', 'a', 'i', 'n', '(', ')', ' ', '{', ' '],
        ),
        stands_at(written_program(p), 13, written_statements(p)),
        written_program(p).len() == 14 + written_statements(p).len(),
        written_program(p)[13 + written_statements(p).len() as int] == '}',
{
    let s = written_program(p);
    let head = seq!['i', 'n', 't', ' ', 'm', 'a', 'i', 'n', '(', ')', ' ', '{', ' '];
    let body = written_statements(p);
    assert(s.subrange(0, s.len() as int) =~= s);
    lemma_stands_split(s, 0, head + body, seq!['}']);
    lemma_stands_split(s, 0, head, body);
    lemma_stands_index(s, 13 + body.len() as int, seq!['}'], 0);
}

/// Reading what was written of a program with a grammatical body gives the
/// body back, statement for statement.
#[verifier::spinoff_prover]
pub proof fn lemma_program_round_trip(p: Seq<StatementView>)
    requires
        grammatical_statements(p),
    ensures
        to_end(program(written_program(p), 0), written_program(p)) == (Outcome::Accept {
            value: p,
            next: written_program(p).len() as int,
        }),
{
    let s = written_program(p);
    let body = written_statements(p);
    let close: int = (13 + body.len()) as int;
    let end = statements_end(12, 13, p);
    lemma_program_parts_stand(p);
    lemma_written_head(s);
    assert(statements(s, 12) == (Outcome::Accept { value: p, next: end })) by {
        lemma_run_end_exact(s, close, close, CharClass::Whitespace);
        lemma_written_statements(s, 12, 13, p);
    }
    assert(symbol(s, end, '}') == (Outcome::Accept { value: (), next: close + 1 })) by {
        if p.len() == 0 {
            lemma_run_end_exact(s, 12, 13, CharClass::Whitespace);
        } else {
            lemma_statements_end_with_space(p);
            lemma_stands_index(s, 13, body, body.len() - 1);
            lemma_run_end_exact(s, close - 1, close, CharClass::Whitespace);
        }
    }
    assert(skip_ws(s, close + 1) == close + 1) by {
        lemma_run_end_exact(s, close + 1, close + 1, CharClass::Whitespace);
    }
    lemma_program_of_parts(s, 0, 3, 8, 9, 10, 12, end, close + 1, p);
}

/// What is written of statements, if there are any, ends with a space.
proof fn lemma_statements_end_with_space(sts: Seq<StatementView>)
    requires
        sts.len() > 0,
    ensures
        written_statements(sts).len() > 0,
        written_statements(sts).last() == ' ',
    decreases sts.len(),
{
    if sts.len() > 1 {
        lemma_statements_end_with_space(sts.drop_first());
    } else {
        assert(written_statements(sts.drop_first()) =~= Seq::<char>::empty());
    }
}

/// White space apart, a program is determined by its tree: writing down the
/// tree of a text that is a program gives a text that is a program with the
/// same tree.
pub proof fn lemma_written_is_normal_form(s: Seq<char>)
    ensures
        to_end(program(s, 0), s) matches Outcome::Accept { value, .. } ==> to_end(
            program(written_program(value), 0),
            written_program(value),
        ) == (Outcome::Accept { value, next: written_program(value).len() as int }),
{
    if let Outcome::Accept { value, next } = program(s, 0) {
        lemma_program_is_grammatical(s);
        lemma_program_round_trip(value);
    }
}

} // verus!
