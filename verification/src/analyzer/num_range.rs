//! The range of integer literals, checked on the tree.
//!
//! A decimal literal stands for a magnitude of at most `2^31`: one more than
//! the largest `int`, so that the smallest `int` can be written with a unary
//! minus. A hexadecimal literal stands for any 32-bit word. A literal is read
//! as the standard library reads an unsigned number: an optional `+`, then
//! at least one digit, and nothing else.

use vstd::prelude::*;
use crate::grammar::{
    Declaration,
    DeclarationView,
    Decnum,
    Expression,
    ExpressionView,
    Hexnum,
    lemma_statements_view,
    Identifier,
    Intconst,
    IntconstView,
    LValue,
    Program,
    SimpleInstruction,
    Statement,
    StatementView,
    Statements,
};
use crate::parser::lexical::{is_decimal_literal, is_digit, is_hex_digit, is_hex_literal};
use crate::source::Source;

verus! {

/// The largest magnitude that a decimal literal may have: `2^31`.
pub const DECIMAL_MAX: u32 = 0x8000_0000;

/// The largest value that a hexadecimal literal may have: `2^32 - 1`.
pub const HEX_MAX: u32 = 0xFFFF_FFFF;

/// The value of `c` as a digit, up to base 16.
pub open spec fn digit_value(c: char) -> Option<nat> {
    if '0' <= c <= '9' {
        Some((c as u32 - '0' as u32) as nat)
    } else if 'a' <= c <= 'f' {
        Some((c as u32 - 'a' as u32 + 10) as nat)
    } else if 'A' <= c <= 'F' {
        Some((c as u32 - 'A' as u32 + 10) as nat)
    } else {
        None
    }
}

/// Whether `c` is a digit of base `radix`.
pub open spec fn is_digit_of(c: char, radix: nat) -> bool {
    digit_value(c) matches Some(v) && v < radix
}

/// Whether `t` consists of digits of base `radix` alone.
pub open spec fn all_digits(t: Seq<char>, radix: nat) -> bool {
    forall|k: int| 0 <= k < t.len() ==> is_digit_of(#[trigger] t[k], radix)
}

/// The number that the digits `t` write in base `radix`.
pub open spec fn digits_value(t: Seq<char>, radix: nat) -> nat
    decreases t.len(),
{
    if t.len() == 0 {
        0
    } else {
        digits_value(t.drop_last(), radix) * radix + digit_value(t.last()).unwrap_or(0)
    }
}

/// `t` without the `+` that may stand in front of a number.
pub open spec fn unsigned_part(t: Seq<char>) -> Seq<char> {
    if t.len() > 0 && t[0] == '+' {
        t.drop_first()
    } else {
        t
    }
}

/// The number that `t` writes in base `radix`, if `t` is a number: an
/// optional `+`, then one digit or more.
pub open spec fn magnitude(t: Seq<char>, radix: nat) -> Option<nat> {
    let digits = unsigned_part(t);
    if digits.len() > 0 && all_digits(digits, radix) {
        Some(digits_value(digits, radix))
    } else {
        None
    }
}

/// Why a text is no number that fits 32 bits.
#[derive(Debug, Clone, Copy, PartialEq, Eq)]
pub enum NumberError {
    /// The text is empty.
    Empty,
    /// The text holds a character that is no digit, or no digit at all.
    InvalidDigit,
    /// The number is larger than `2^32 - 1`.
    Overflow,
}

/// The first thing that is wrong with the digits `digits`, going from left
/// to right: a character that is no digit of base `radix`, or a digit with
/// which the number read so far grows beyond `2^32 - 1`.
pub open spec fn first_problem(digits: Seq<char>, radix: nat) -> Option<NumberError>
    decreases digits.len(),
{
    if digits.len() == 0 {
        None
    } else {
        match first_problem(digits.drop_last(), radix) {
            Some(e) => Some(e),
            None => if !is_digit_of(digits.last(), radix) {
                Some(NumberError::InvalidDigit)
            } else if digits_value(digits, radix) > u32::MAX {
                Some(NumberError::Overflow)
            } else {
                None
            },
        }
    }
}

/// What `t` is as a number of base `radix` that fits 32 bits: its value, or
/// the first thing that is wrong with it.
pub open spec fn number(t: Seq<char>, radix: nat) -> Result<nat, NumberError> {
    if t.len() == 0 {
        Err(NumberError::Empty)
    } else if unsigned_part(t).len() == 0 {
        Err(NumberError::InvalidDigit)
    } else {
        match first_problem(unsigned_part(t), radix) {
            Some(e) => Err(e),
            None => Ok(digits_value(unsigned_part(t), radix)),
        }
    }
}

impl NumberError {
    /// The error in words.
    pub open spec fn describe(self) -> Seq<char> {
        match self {
            NumberError::Empty => "cannot parse integer from empty string"@,
            NumberError::InvalidDigit => "invalid digit found in string"@,
            NumberError::Overflow => "number too large to fit in target type"@,
        }
    }

    /// The error in words.
    pub fn description(self) -> (r: &'static str)
        ensures
            r@ == self.describe(),
    {
        match self {
            NumberError::Empty => "cannot parse integer from empty string",
            NumberError::InvalidDigit => "invalid digit found in string",
            NumberError::Overflow => "number too large to fit in target type",
        }
    }
}

/// `t` without the `0x` or `0X` that may stand in front of a hexadecimal
/// literal.
pub open spec fn hex_part(t: Seq<char>) -> Seq<char> {
    if t.len() >= 2 && t[0] == '0' && (t[1] == 'x' || t[1] == 'X') {
        t.skip(2)
    } else {
        t
    }
}

/// Whether the decimal literal `t` is a number of at most `2^31`.
pub open spec fn decnum_in_range(t: Seq<char>) -> bool {
    magnitude(t, 10) matches Some(v) && v <= DECIMAL_MAX
}

/// Whether the hexadecimal literal `t`, written with or without its prefix,
/// is a number of at most `2^32 - 1`.
pub open spec fn hexnum_in_range(t: Seq<char>) -> bool {
    magnitude(hex_part(t), 16) matches Some(v) && v <= HEX_MAX
}

pub open spec fn intconst_in_range(c: IntconstView) -> bool {
    match c {
        IntconstView::Decnum(t) => decnum_in_range(t),
        IntconstView::Hexnum(t) => hexnum_in_range(t),
    }
}

/// Whether every literal in `e` is in range.
pub open spec fn exp_in_range(e: ExpressionView) -> bool
    decreases e,
{
    match e {
        ExpressionView::NestedExp(inner) => exp_in_range(*inner),
        ExpressionView::Intconst(c) => intconst_in_range(c),
        ExpressionView::Ident(_) => true,
        ExpressionView::Binop { left, op, right } => exp_in_range(*left) && exp_in_range(*right),
        ExpressionView::Unop { op, right } => exp_in_range(*right),
    }
}

/// Whether every literal in `st` is in range.
pub open spec fn statement_in_range(st: StatementView) -> bool {
    match st {
        StatementView::Decl(DeclarationView::Ident(_)) => true,
        StatementView::Decl(DeclarationView::IdentExp { ident, exp }) => exp_in_range(exp),
        StatementView::Simp(simp) => exp_in_range(simp.exp),
        StatementView::Return(exp) => exp_in_range(exp),
    }
}

/// Whether every literal in the statements `sts` is in range.
pub open spec fn statements_in_range(sts: Seq<StatementView>) -> bool {
    forall|k: int| 0 <= k < sts.len() ==> statement_in_range(#[trigger] sts[k])
}

/// `base` to the power of `n`.
pub open spec fn pow(base: nat, n: nat) -> nat
    decreases n,
{
    if n == 0 {
        1
    } else {
        base * pow(base, (n - 1) as nat)
    }
}

/// A power of a positive base grows with its exponent.
pub proof fn lemma_pow_grows(base: nat, m: nat, n: nat)
    requires
        base >= 1,
        m <= n,
    ensures
        1 <= pow(base, m) <= pow(base, n),
    decreases n,
{
    if m < n {
        lemma_pow_grows(base, m, (n - 1) as nat);
        assert(base * pow(base, (n - 1) as nat) >= pow(base, (n - 1) as nat)) by (nonlinear_arith)
            requires
                base >= 1,
        ;
    } else if n > 0 {
        lemma_pow_grows(base, (m - 1) as nat, (n - 1) as nat);
        assert(base * pow(base, (n - 1) as nat) >= 1) by (nonlinear_arith)
            requires
                base >= 1,
                pow(base, (n - 1) as nat) >= 1,
        ;
    }
}

/// A number of `n` digits is less than the base to the power of `n`, and
/// at least its first digit times the base to the power of `n - 1`.
pub proof fn lemma_digits_value_bounds(digits: Seq<char>, radix: nat)
    requires
        radix >= 1,
        digits.len() > 0,
        all_digits(digits, radix),
    ensures
        digits_value(digits, radix) < pow(radix, digits.len()),
        digits_value(digits, radix) >= digit_value(digits[0])->0 * pow(
            radix,
            (digits.len() - 1) as nat,
        ),
    decreases digits.len(),
{
    let front = digits.drop_last();
    let last = digit_value(digits.last())->0;
    assert(is_digit_of(digits.last(), radix));
    assert(is_digit_of(digits[0], radix));
    let first = digit_value(digits[0])->0;
    let v = digits_value(front, radix);
    assert(digits_value(digits, radix) == v * radix + last);
    if front.len() == 0 {
        assert(v == 0);
        assert(pow(radix, 0) == 1);
        assert(pow(radix, 1) == radix * pow(radix, 0));
        assert(digits.last() == digits[0]);
        assert(first * 1 == first) by (nonlinear_arith);
        assert(radix * 1 == radix) by (nonlinear_arith);
        assert(v * radix == 0) by (nonlinear_arith)
            requires
                v == 0,
        ;
        assert(digits.len() == 1);
    } else {
        assert forall|k: int| 0 <= k < front.len() implies is_digit_of(
            #[trigger] front[k],
            radix,
        ) by {
            assert(front[k] == digits[k]);
        }
        lemma_digits_value_bounds(front, radix);
        let p = pow(radix, front.len());
        let q = pow(radix, (front.len() - 1) as nat);
        assert(front[0] == digits[0]);
        assert(pow(radix, digits.len()) == radix * p);
        assert(p == radix * q);
        assert(v * radix + last < radix * p) by (nonlinear_arith)
            requires
                v < p,
                last < radix,
        ;
        assert(v * radix + last >= first * (radix * q)) by (nonlinear_arith)
            requires
                v >= first * q,
                last >= 0,
                radix >= 1,
        ;
    }
}

/// A decimal literal is accepted exactly if the number that it writes is at
/// most `2^31`.
pub proof fn lemma_decimal_literal_in_range(t: Seq<char>)
    requires
        is_decimal_literal(t),
    ensures
        decnum_in_range(t) <==> digits_value(t, 10) <= DECIMAL_MAX,
{
    assert(is_digit(t[0]));
    assert forall|k: int| 0 <= k < t.len() implies is_digit_of(#[trigger] t[k], 10) by {
        assert(is_digit(t[k]));
    }
}

/// A hexadecimal literal is accepted exactly if the number that its digits
/// write is at most `2^32 - 1`. It is with up to eight digits, and it is not
/// with nine or more of which the first is not `0`.
pub proof fn lemma_hex_literal_in_range(t: Seq<char>)
    requires
        is_hex_literal(t),
    ensures
        hexnum_in_range(t) <==> digits_value(t.skip(2), 16) <= HEX_MAX,
        t.len() <= 10 ==> hexnum_in_range(t),
        t.len() >= 11 && t[2] != '0' ==> !hexnum_in_range(t),
{
    let digits = t.skip(2);
    assert(is_hex_digit(t[2]));
    assert(digits[0] == t[2]);
    assert forall|k: int| 0 <= k < digits.len() implies is_digit_of(#[trigger] digits[k], 16) by {
        assert(is_hex_digit(t[k + 2]));
    }
    lemma_digits_value_bounds(digits, 16);
    assert(pow(16, 8) == 0x1_0000_0000) by {
        reveal_with_fuel(pow, 9);
    }
    if t.len() <= 10 {
        lemma_pow_grows(16, digits.len(), 8);
    }
    if t.len() >= 11 && t[2] != '0' {
        lemma_pow_grows(16, 8, (digits.len() - 1) as nat);
        let first = digit_value(digits[0])->0;
        let p = pow(16, (digits.len() - 1) as nat);
        assert(first * p >= p) by (nonlinear_arith)
            requires
                first >= 1,
        ;
    }
}

/// A base in which literals are written.
#[derive(Debug, Clone, Copy, PartialEq, Eq)]
pub enum Radix {
    Decimal,
    Hexadecimal,
}

impl Radix {
    /// The number of digits of the base.
    pub open spec fn base(self) -> nat {
        match self {
            Radix::Decimal => 10,
            Radix::Hexadecimal => 16,
        }
    }

    /// The number of digits of the base.
    pub fn value(self) -> (r: u32)
        ensures
            r == self.base(),
    {
        match self {
            Radix::Decimal => 10,
            Radix::Hexadecimal => 16,
        }
    }
}

/// The value of `c` as a digit of the base `radix`, if it is one.
pub fn to_digit(c: char, radix: Radix) -> (r: Option<u32>)
    ensures
        r is Some <==> is_digit_of(c, radix.base()),
        r matches Some(v) ==> digit_value(c) == Some(v as nat) && v < radix.base(),
{
    let radix = radix.value();
    let v: u32 = c as u32;
    let d: u32 = if '0' <= c && c <= '9' {
        v - 48
    } else if 'a' <= c && c <= 'f' {
        v - 97 + 10
    } else if 'A' <= c && c <= 'F' {
        v - 65 + 10
    } else {
        return None;
    };
    if d < radix {
        Some(d)
    } else {
        None
    }
}

/// The value of a number never falls when digits are added behind it.
pub proof fn lemma_digits_value_grows(t: Seq<char>, k: int, radix: nat)
    requires
        0 <= k <= t.len(),
        radix > 0,
    ensures
        digits_value(t.take(k), radix) <= digits_value(t, radix),
    decreases t.len() - k,
{
    if k == t.len() {
        assert(t.take(k) =~= t);
    } else {
        lemma_digits_value_grows(t.drop_last(), k, radix);
        assert(t.drop_last().take(k) =~= t.take(k));
        assert(digits_value(t.drop_last(), radix) * radix >= digits_value(t.drop_last(), radix))
            by (nonlinear_arith)
            requires
                radix > 0,
        ;
    }
}

/// A problem in front stays the first problem when more digits follow.
pub proof fn lemma_first_problem_stays(digits: Seq<char>, k: int, radix: nat)
    requires
        0 <= k <= digits.len(),
        first_problem(digits.take(k), radix) is Some,
    ensures
        first_problem(digits, radix) == first_problem(digits.take(k), radix),
    decreases digits.len() - k,
{
    if k == digits.len() {
        assert(digits.take(k) =~= digits);
    } else {
        assert(digits.take(k + 1).drop_last() =~= digits.take(k));
        lemma_first_problem_stays(digits, k + 1, radix);
    }
}

/// Digits have no problem exactly if each is a digit of the base and the
/// number they write fits 32 bits.
pub proof fn lemma_no_problem(digits: Seq<char>, radix: nat)
    requires
        radix > 0,
    ensures
        first_problem(digits, radix) is None <==> all_digits(digits, radix) && digits_value(
            digits,
            radix,
        ) <= u32::MAX,
    decreases digits.len(),
{
    if digits.len() > 0 {
        let front = digits.drop_last();
        lemma_no_problem(front, radix);
        assert(front =~= digits.take(digits.len() - 1));
        lemma_digits_value_grows(digits, digits.len() - 1, radix);
        if all_digits(digits, radix) {
            assert forall|k: int| 0 <= k < front.len() implies is_digit_of(
                #[trigger] front[k],
                radix,
            ) by {
                assert(front[k] == digits[k]);
            }
        }
        if all_digits(front, radix) && is_digit_of(digits.last(), radix) {
            assert forall|k: int| 0 <= k < digits.len() implies is_digit_of(
                #[trigger] digits[k],
                radix,
            ) by {
                if k < front.len() {
                    assert(front[k] == digits[k]);
                }
            }
        }
    }
}

/// A text is a number that fits 32 bits exactly if it has a magnitude of at
/// most `2^32 - 1`; the number is then that magnitude.
pub proof fn lemma_number_is_magnitude(t: Seq<char>, radix: nat)
    requires
        radix > 0,
    ensures
        number(t, radix) is Ok <==> (magnitude(t, radix) matches Some(v) && v <= u32::MAX),
        number(t, radix) matches Ok(n) ==> magnitude(t, radix) == Some(n),
{
    lemma_no_problem(unsigned_part(t), radix);
}

/// Reads `text` as an unsigned number of base `radix` that fits 32 bits.
///
/// Returns what [`number`] says of the text: its value, or the first thing
/// that is wrong with it.
pub fn parse_u32(text: &str, base: Radix) -> (r: Result<u32, NumberError>)
    ensures
        match r {
            Ok(n) => number(text@, base.base()) == Ok::<nat, NumberError>(n as nat),
            Err(e) => number(text@, base.base()) == Err::<nat, NumberError>(e),
        },
{
    let radix = base.value();
    let src = Source::new(text);
    let n = src.len();
    if n == 0 {
        return Err(NumberError::Empty);
    }
    let start: usize = if src.peek(0) == Some('+') {
        1
    } else {
        0
    };
    let ghost digits = unsigned_part(text@);
    assert(digits =~= text@.skip(start as int));
    if start == n {
        return Err(NumberError::InvalidDigit);
    }
    let mut value: u64 = 0;
    let mut at: usize = start;
    assert(digits.take(0) =~= Seq::<char>::empty());
    while at < n
        invariant
            start <= at <= n,
            n == text@.len(),
            src@ == text@,
            radix == base.base(),
            digits == text@.skip(start as int),
            digits == unsigned_part(text@),
            first_problem(digits.take(at - start), radix as nat) is None,
            value == digits_value(digits.take(at - start), radix as nat),
            value <= u32::MAX,
        decreases n - at,
    {
        let c = src.peek(at).unwrap();
        let ghost k = at - start;
        assert(digits[k] == c);
        assert(digits.take(k + 1).drop_last() =~= digits.take(k));
        assert(digits.take(k + 1).last() == c);
        match to_digit(c, base) {
            Some(d) => {
                assert(value * radix <= 0xFFFF_FFFF * 16) by (nonlinear_arith)
                    requires
                        value <= 0xFFFF_FFFF,
                        radix <= 16,
                ;
                value = value * (radix as u64) + (d as u64);
                if value > 0xFFFF_FFFF {
                    proof {
                        lemma_first_problem_stays(digits, k + 1, radix as nat);
                    }
                    return Err(NumberError::Overflow);
                }
            },
            None => {
                proof {
                    lemma_first_problem_stays(digits, k + 1, radix as nat);
                }
                return Err(NumberError::InvalidDigit);
            },
        }
        at = at + 1;
    }
    assert(digits.take(at - start) =~= digits);
    Ok(value as u32)
}

/// Whether the text begins with `0x` or `0X`.
pub fn has_hex_prefix(src: &Source) -> (r: bool)
    ensures
        r == (src@.len() >= 2 && src@[0] == '0' && (src@[1] == 'x' || src@[1] == 'X')),
{
    let x = src.peek(1);
    src.peek(0) == Some('0') && (x == Some('x') || x == Some('X'))
}

/// Accepts a decimal literal of at most `2^31`.
pub fn analyze_decnum<'src>(decnum: &Decnum<'src>) -> (r: Result<(), ()>)
    ensures
        r is Ok <==> decnum_in_range(decnum@),
{
    proof {
        lemma_number_is_magnitude(decnum@, 10);
    }
    match parse_u32(decnum.0, Radix::Decimal) {
        Ok(num) => {
            if num > DECIMAL_MAX {
                return Err(());
            }
            Ok(())
        },
        Err(_) => Err(()),
    }
}

/// Accepts a hexadecimal literal that fits 32 bits.
pub fn analyze_hexnum<'src>(hexnum: &Hexnum<'src>) -> (r: Result<(), ()>)
    ensures
        r is Ok <==> hexnum_in_range(hexnum@),
{
    let src = Source::new(hexnum.0);
    let digits = if has_hex_prefix(&src) {
        src.slice(2, src.len())
    } else {
        hexnum.0
    };
    proof {
        lemma_number_is_magnitude(hex_part(hexnum@), 16);
        assert(src@.subrange(2, src@.len() as int) =~= src@.skip(2));
    }
    match parse_u32(digits, Radix::Hexadecimal) {
        Ok(_) => Ok(()),
        Err(_) => Err(()),
    }
}

/// Accepts a literal that is in the range of its kind.
pub fn analyze_intconst<'src>(intconst: &Intconst<'src>) -> (r: Result<(), ()>)
    ensures
        r is Ok <==> intconst_in_range(intconst@),
{
    match intconst {
        Intconst::Decnum(decnum) => analyze_decnum(decnum),
        Intconst::Hexnum(hexnum) => analyze_hexnum(hexnum),
    }
}

/// Accepts every identifier: a name holds no literal.
pub fn analyze_ident<'src>(_ident: &Identifier<'src>) -> (r: Result<(), ()>)
    ensures
        r is Ok,
{
    Ok(())
}

/// Accepts every lvalue: it holds no literal.
pub fn analyze_lvalue<'src>(lvalue: &LValue<'src>) -> (r: Result<(), ()>)
    ensures
        r is Ok,
    decreases *lvalue,
{
    match lvalue {
        LValue::Ident(ident) => analyze_ident(ident),
        LValue::LValue(lvalue) => analyze_lvalue(lvalue),
    }
}

/// Accepts an expression whose literals are all in range.
pub fn analyze_exp<'src>(exp: &Expression<'src>) -> (r: Result<(), ()>)
    ensures
        r is Ok <==> exp_in_range(exp@),
    decreases *exp,
{
    match exp {
        Expression::NestedExp(nested_exp) => analyze_exp(nested_exp),
        Expression::Intconst(intconst) => analyze_intconst(intconst),
        Expression::Ident(ident) => analyze_ident(ident),
        Expression::Binop { left, right, .. } => {
            if analyze_exp(left).is_err() {
                return Err(());
            }
            analyze_exp(right)
        },
        Expression::Unop { right, .. } => analyze_exp(right),
    }
}

/// Accepts a declaration whose literals are all in range.
pub fn analyze_decl<'src>(decl: &Declaration<'src>) -> (r: Result<(), ()>)
    ensures
        r is Ok <==> statement_in_range(StatementView::Decl(decl@)),
{
    match decl {
        Declaration::Ident(ident) => analyze_ident(ident),
        Declaration::IdentExp { ident, exp } => {
            let _ = analyze_ident(ident);
            analyze_exp(exp)
        },
    }
}

/// Accepts an assignment whose literals are all in range.
pub fn analyze_simp<'src>(simp: &SimpleInstruction<'src>) -> (r: Result<(), ()>)
    ensures
        r is Ok <==> statement_in_range(StatementView::Simp(simp@)),
{
    let _ = analyze_lvalue(&simp.lvalue);
    analyze_exp(&simp.exp)
}

/// Accepts a statement whose literals are all in range.
pub fn analyze_statement<'src>(statement: &Statement<'src>) -> (r: Result<(), ()>)
    ensures
        r is Ok <==> statement_in_range(statement@),
{
    match statement {
        Statement::Decl(decl) => analyze_decl(decl),
        Statement::Simp(simp) => analyze_simp(simp),
        Statement::Return(exp) => analyze_exp(exp),
    }
}

/// Accepts statements whose literals are all in range.
pub fn analyze_statements<'src>(statements: &Statements<'src>) -> (r: Result<(), ()>)
    ensures
        r is Ok <==> statements_in_range(statements@),
{
    let mut rest = statements;
    let ghost mut seen: int = 0;
    loop
        invariant
            0 <= seen <= statements@.len(),
            rest@ == statements@.skip(seen),
            statements_in_range(statements@.take(seen)),
        decreases statements@.len() - seen,
    {
        proof {
            lemma_statements_view(*rest);
        }
        match rest {
            Statements::Empty => {
                assert(statements@.take(seen) =~= statements@);
                return Ok(());
            },
            Statements::Statement { current, next } => {
                assert(rest@[0] == current@);
                assert(statements@[seen] == current@);
                if analyze_statement(current).is_err() {
                    return Err(());
                }
                proof {
                    assert(rest@.skip(1) =~= next@);
                    assert(statements@.skip(seen).skip(1) =~= statements@.skip(seen + 1));
                    assert forall|k: int| 0 <= k < seen + 1 implies statement_in_range(
                        #[trigger] statements@.take(seen + 1)[k],
                    ) by {
                        if k < seen {
                            assert(statements@.take(seen)[k] == statements@[k]);
                        }
                    }
                    seen = seen + 1;
                }
                rest = next;
            },
        }
    }
}

/// Accepts a program whose integer literals are all in range.
pub fn analyze<'src>(p: &Program<'src>) -> (r: Result<(), ()>)
    ensures
        r is Ok <==> statements_in_range(p@),
{
    analyze_statements(&p.0)
}

} // verus!
