//! The lexical layer of the grammar: character classes, white space, words,
//! symbols and literals, each as a function of the text and a position.
//!
//! A position is an index into the characters of the text. Every token skips
//! the white space in front of it and stops right behind its last character.

use vstd::prelude::*;
use vstd::string::StrSliceExecFns;
use crate::source::Source;
use crate::grammar::{Decnum, Hexnum, Identifier, Intconst, IntconstView};

verus! {

/// The words that the grammar itself is written with.
#[derive(Debug, Clone, Copy, PartialEq, Eq)]
pub enum Word {
    Int,
    Main,
    Return,
}

/// What the parser was looking for where it gave up.
#[derive(Debug, Clone, Copy, PartialEq, Eq)]
pub enum Expected {
    /// One of the words of the grammar.
    Word(Word),
    /// One of `( ) { } ; =`.
    Symbol(char),
    /// A name that is no reserved word.
    Identifier,
    /// The start of an expression: a literal, a name, `(` or `-`.
    Expression,
    /// One of `= += -= *= /= %=`.
    AssignOperator,
    /// `-`.
    UnaryOperator,
    /// `0`, or a digit other than `0` followed by digits.
    DecimalLiteral,
    /// `0x` or `0X` followed by at least one hexadecimal digit.
    HexLiteral,
    /// Nothing but white space up to the end of the text.
    EndOfInput,
}

/// Where the parser gave up, as a character index, and what it was looking
/// for there.
#[derive(Debug, Clone, Copy, PartialEq, Eq)]
pub struct Failure {
    pub at: usize,
    pub expected: Expected,
}

/// What the grammar makes of a text from a position on: a value and the
/// position behind it, or the position of the first character that does not
/// fit and what was expected there.
pub enum Outcome<T> {
    Accept { value: T, next: int },
    Reject { at: int, expected: Expected },
}

impl<T> Outcome<T> {
    /// The same outcome with `f` applied to the value.
    pub open spec fn with<U>(self, f: spec_fn(T) -> U) -> Outcome<U> {
        match self {
            Outcome::Accept { value, next } => Outcome::Accept { value: f(value), next },
            Outcome::Reject { at, expected } => Outcome::Reject { at, expected },
        }
    }

    /// What `f` makes of the value and the position behind it; a rejection
    /// stays what it is.
    pub open spec fn and_then<U>(self, f: spec_fn(T, int) -> Outcome<U>) -> Outcome<U> {
        match self {
            Outcome::Accept { value, next } => f(value, next),
            Outcome::Reject { at, expected } => Outcome::Reject { at, expected },
        }
    }

    /// Whether a value was accepted that ends at or behind `from` and inside
    /// `s`.
    pub open spec fn ends_within(self, from: int, s: Seq<char>) -> bool {
        self matches Outcome::Accept { next, .. } && from <= next <= s.len()
    }
}

/// Whether the result `r` of a parsing function is what the grammar says.
pub open spec fn agrees<T: View>(r: Result<(T, usize), Failure>, o: Outcome<T::V>) -> bool {
    match r {
        Ok((value, next)) => o == (Outcome::Accept { value: value@, next: next as int }),
        Err(f) => o == (Outcome::<T::V>::Reject { at: f.at as int, expected: f.expected }),
    }
}

/// A set of characters that a token is scanned over.
#[derive(Debug, Clone, Copy, PartialEq, Eq)]
pub enum CharClass {
    /// White space, as Unicode defines it.
    Whitespace,
    /// What an identifier continues with: ASCII letters, digits, `_`.
    Word,
    /// `0` to `9`.
    Digit,
    /// `0` to `9`, `a` to `f`, `A` to `F`.
    HexDigit,
}

/// Whether `c` has the Unicode property `White_Space`.
pub open spec fn is_whitespace(c: char) -> bool {
    let v = c as u32;
    ||| 0x09 <= v <= 0x0D
    ||| v == 0x20
    ||| v == 0x85
    ||| v == 0xA0
    ||| v == 0x1680
    ||| 0x2000 <= v <= 0x200A
    ||| v == 0x2028
    ||| v == 0x2029
    ||| v == 0x202F
    ||| v == 0x205F
    ||| v == 0x3000
}

pub open spec fn is_digit(c: char) -> bool {
    '0' <= c <= '9'
}

pub open spec fn is_hex_digit(c: char) -> bool {
    is_digit(c) || 'a' <= c <= 'f' || 'A' <= c <= 'F'
}

/// Whether `c` may start an identifier: an ASCII letter or `_`.
pub open spec fn is_ident_start(c: char) -> bool {
    'a' <= c <= 'z' || 'A' <= c <= 'Z' || c == '_'
}

/// Whether `c` may continue an identifier: an ASCII letter, a digit or `_`.
pub open spec fn is_ident_part(c: char) -> bool {
    is_ident_start(c) || is_digit(c)
}

impl CharClass {
    /// Whether `c` belongs to the class.
    pub open spec fn holds(self, c: char) -> bool {
        match self {
            CharClass::Whitespace => is_whitespace(c),
            CharClass::Word => is_ident_part(c),
            CharClass::Digit => is_digit(c),
            CharClass::HexDigit => is_hex_digit(c),
        }
    }

    /// Whether `c` belongs to the class.
    pub fn test(self, c: char) -> (r: bool)
        ensures
            r == self.holds(c),
    {
        let v: u32 = c as u32;
        match self {
            CharClass::Whitespace => {
                (0x09 <= v && v <= 0x0D) || v == 0x20 || v == 0x85 || v == 0xA0 || v == 0x1680 || (
                0x2000 <= v && v <= 0x200A) || v == 0x2028 || v == 0x2029 || v == 0x202F || v
                    == 0x205F || v == 0x3000
            },
            CharClass::Word => {
                ('a' <= c && c <= 'z') || ('A' <= c && c <= 'Z') || c == '_' || ('0' <= c && c
                    <= '9')
            },
            CharClass::Digit => '0' <= c && c <= '9',
            CharClass::HexDigit => {
                ('0' <= c && c <= '9') || ('a' <= c && c <= 'f') || ('A' <= c && c <= 'F')
            },
        }
    }
}

/// The end of the longest run of characters of `class` that starts at `i`.
pub open spec fn run_end(s: Seq<char>, i: int, class: CharClass) -> int
    decreases s.len() - i,
{
    if 0 <= i < s.len() && class.holds(s[i]) {
        run_end(s, i + 1, class)
    } else {
        i
    }
}

/// A run ends inside the text, holds only characters of its class, and
/// cannot be made longer.
pub proof fn lemma_run_end(s: Seq<char>, i: int, class: CharClass)
    requires
        0 <= i <= s.len(),
    ensures
        i <= run_end(s, i, class) <= s.len(),
        forall|k: int| i <= k < run_end(s, i, class) ==> class.holds(#[trigger] s[k]),
        run_end(s, i, class) < s.len() ==> !class.holds(s[run_end(s, i, class)]),
    decreases s.len() - i,
{
    if i < s.len() && class.holds(s[i]) {
        lemma_run_end(s, i + 1, class);
    }
}

/// A run that is entered at any point of it ends where the whole run ends.
pub proof fn lemma_run_end_from_inside(s: Seq<char>, i: int, k: int, class: CharClass)
    requires
        0 <= i <= k <= s.len(),
        forall|m: int| i <= m < k ==> class.holds(#[trigger] s[m]),
    ensures
        run_end(s, i, class) == run_end(s, k, class),
    decreases k - i,
{
    if i < k {
        lemma_run_end_from_inside(s, i + 1, k, class);
    }
}

/// The position of the first character at or behind `i` that is no white
/// space; the length of the text where there is none.
pub open spec fn skip_ws(s: Seq<char>, i: int) -> int {
    run_end(s, i, CharClass::Whitespace)
}

/// Skipping white space never goes back, and stays inside the text.
pub proof fn lemma_skip_ws(s: Seq<char>, i: int)
    ensures
        i <= skip_ws(s, i),
        0 <= i <= s.len() ==> skip_ws(s, i) <= s.len(),
{
    if 0 <= i <= s.len() {
        lemma_run_end(s, i, CharClass::Whitespace);
    }
}

/// The end of the word that starts at `i`; `i` itself where no word starts.
pub open spec fn word_end(s: Seq<char>, i: int) -> int {
    if 0 <= i < s.len() && is_ident_start(s[i]) {
        run_end(s, i + 1, CharClass::Word)
    } else {
        i
    }
}

/// The word that starts at `i`; empty where none starts.
pub open spec fn word_at(s: Seq<char>, i: int) -> Seq<char> {
    s.subrange(i, word_end(s, i))
}

impl Word {
    /// The word as it is written.
    pub open spec fn text(self) -> Seq<char> {
        match self {
            Word::Int => "int"@,
            Word::Main => "main"@,
            Word::Return => "return"@,
        }
    }

    /// The word as it is written.
    pub fn as_str(self) -> (r: &'static str)
        ensures
            r@ == self.text(),
    {
        match self {
            Word::Int => "int",
            Word::Main => "main",
            Word::Return => "return",
        }
    }
}

/// Whether `w` is one of the words that no identifier may be.
pub open spec fn is_reserved(w: Seq<char>) -> bool {
    ||| w == "struct"@
    ||| w == "if"@
    ||| w == "else"@
    ||| w == "while"@
    ||| w == "for"@
    ||| w == "continue"@
    ||| w == "break"@
    ||| w == "return"@
    ||| w == "assert"@
    ||| w == "true"@
    ||| w == "false"@
    ||| w == "NULL"@
    ||| w == "print"@
    ||| w == "read"@
    ||| w == "alloc"@
    ||| w == "alloc_array"@
    ||| w == "int"@
    ||| w == "bool"@
    ||| w == "void"@
    ||| w == "char"@
    ||| w == "string"@
}

/// The word `word`, in front of which white space may stand. A longer word
/// that only begins with it is another word.
pub open spec fn keyword(s: Seq<char>, i: int, word: Word) -> Outcome<()> {
    let j = skip_ws(s, i);
    if word_at(s, j) == word.text() {
        Outcome::Accept { value: (), next: word_end(s, j) }
    } else {
        Outcome::Reject { at: j, expected: Expected::Word(word) }
    }
}

/// The character `c`, in front of which white space may stand.
pub open spec fn symbol(s: Seq<char>, i: int, c: char) -> Outcome<()> {
    let j = skip_ws(s, i);
    if j < s.len() && s[j] == c {
        Outcome::Accept { value: (), next: j + 1 }
    } else {
        Outcome::Reject { at: j, expected: Expected::Symbol(c) }
    }
}

/// An identifier: the longest word at the first character that is no white
/// space, unless that word is reserved.
pub open spec fn identifier(s: Seq<char>, i: int) -> Outcome<Seq<char>> {
    let j = skip_ws(s, i);
    if word_end(s, j) > j && !is_reserved(word_at(s, j)) {
        Outcome::Accept { value: word_at(s, j), next: word_end(s, j) }
    } else {
        Outcome::Reject { at: j, expected: Expected::Identifier }
    }
}

/// Whether a hexadecimal literal starts at `j`: `0`, then `x` or `X`, then a
/// hexadecimal digit.
pub open spec fn hex_starts(s: Seq<char>, j: int) -> bool {
    &&& 0 <= j
    &&& j + 2 < s.len()
    &&& s[j] == '0'
    &&& (s[j + 1] == 'x' || s[j + 1] == 'X')
    &&& is_hex_digit(s[j + 2])
}

/// A decimal literal: `0` alone, or a digit other than `0` and the digits
/// that follow it. The value is the literal as written.
pub open spec fn decnum(s: Seq<char>, i: int) -> Outcome<Seq<char>> {
    let j = skip_ws(s, i);
    if j < s.len() && s[j] == '0' {
        Outcome::Accept { value: s.subrange(j, j + 1), next: j + 1 }
    } else if j < s.len() && is_digit(s[j]) {
        let e = run_end(s, j, CharClass::Digit);
        Outcome::Accept { value: s.subrange(j, e), next: e }
    } else {
        Outcome::Reject { at: j, expected: Expected::DecimalLiteral }
    }
}

/// A hexadecimal literal: `0x` or `0X` and the hexadecimal digits that
/// follow, at least one. The value is the literal as written, prefix
/// included.
pub open spec fn hexnum(s: Seq<char>, i: int) -> Outcome<Seq<char>> {
    let j = skip_ws(s, i);
    if hex_starts(s, j) {
        let e = run_end(s, j + 2, CharClass::HexDigit);
        Outcome::Accept { value: s.subrange(j, e), next: e }
    } else {
        Outcome::Reject { at: j, expected: Expected::HexLiteral }
    }
}

/// An integer literal: a hexadecimal one where one starts, else a decimal
/// one.
pub open spec fn intconst(s: Seq<char>, i: int) -> Outcome<IntconstView> {
    if hex_starts(s, skip_ws(s, i)) {
        hexnum(s, i).with(|text: Seq<char>| IntconstView::Hexnum(text))
    } else {
        decnum(s, i).with(|text: Seq<char>| IntconstView::Decnum(text))
    }
}

impl<T> Outcome<T> {
    /// Whether the outcome of reading at `i` lies where it should: an
    /// accepted value ends behind `i`, a rejection lies at or behind `i`, and
    /// both inside `s`.
    pub open spec fn advances(self, i: int, s: Seq<char>) -> bool {
        match self {
            Outcome::Accept { next, .. } => i < next <= s.len(),
            Outcome::Reject { at, .. } => i <= at <= s.len(),
        }
    }
}

/// Every token ends behind the position it was read at, and every
/// rejection lies at or behind that position; both inside the text.
pub proof fn lemma_tokens_advance(s: Seq<char>, i: int)
    requires
        0 <= i <= s.len(),
    ensures
        forall|word: Word| (#[trigger] keyword(s, i, word)).advances(i, s),
        forall|c: char| (#[trigger] symbol(s, i, c)).advances(i, s),
        identifier(s, i).advances(i, s),
        decnum(s, i).advances(i, s),
        hexnum(s, i).advances(i, s),
        intconst(s, i).advances(i, s),
{
    lemma_skip_ws(s, i);
    let j = skip_ws(s, i);
    if j < s.len() {
        lemma_run_end(s, j + 1, CharClass::Word);
        lemma_run_end(s, j + 1, CharClass::Digit);
    }
    if j + 2 < s.len() {
        lemma_run_end(s, j + 2, CharClass::HexDigit);
    }
    assert forall|word: Word| (#[trigger] keyword(s, i, word)).advances(i, s) by {
        reveal_strlit("int");
        reveal_strlit("main");
        reveal_strlit("return");
        if word_at(s, j) == word.text() {
            assert(word_at(s, j).len() > 0);
        }
    }
}

/// Whether `t` is written as an identifier is: a letter or `_`, then
/// letters, digits and `_`, and no reserved word.
pub open spec fn is_identifier(t: Seq<char>) -> bool {
    &&& t.len() > 0
    &&& is_ident_start(t[0])
    &&& forall|k: int| 0 <= k < t.len() ==> is_ident_part(#[trigger] t[k])
    &&& !is_reserved(t)
}

/// Whether `t` is written as a decimal literal is: `0` alone, or digits of
/// which the first is not `0`.
pub open spec fn is_decimal_literal(t: Seq<char>) -> bool {
    &&& t.len() > 0
    &&& forall|k: int| 0 <= k < t.len() ==> is_digit(#[trigger] t[k])
    &&& t[0] == '0' ==> t.len() == 1
}

/// Whether `t` is written as a hexadecimal literal is: `0x` or `0X`, then
/// at least one hexadecimal digit and nothing else.
pub open spec fn is_hex_literal(t: Seq<char>) -> bool {
    &&& t.len() >= 3
    &&& t[0] == '0'
    &&& (t[1] == 'x' || t[1] == 'X')
    &&& forall|k: int| 2 <= k < t.len() ==> is_hex_digit(#[trigger] t[k])
}

/// An identifier that is read is written as one, and is the text between
/// the white space in front of it and the position behind it, unchanged.
pub proof fn lemma_identifier_is_source_text(s: Seq<char>, i: int)
    requires
        0 <= i <= s.len(),
    ensures
        identifier(s, i) matches Outcome::Accept { value, next } ==> is_identifier(value) && value
            == s.subrange(skip_ws(s, i), next),
{
    lemma_skip_ws(s, i);
    let j = skip_ws(s, i);
    if j < s.len() {
        lemma_run_end(s, j + 1, CharClass::Word);
    }
}

/// A literal that is read is written as one of its kind, and is the text
/// between the white space in front of it and the position behind it,
/// unchanged: no digit is dropped, added or rewritten.
pub proof fn lemma_literal_is_source_text(s: Seq<char>, i: int)
    requires
        0 <= i <= s.len(),
    ensures
        decnum(s, i) matches Outcome::Accept { value, next } ==> is_decimal_literal(value) && value
            == s.subrange(skip_ws(s, i), next),
        hexnum(s, i) matches Outcome::Accept { value, next } ==> is_hex_literal(value) && value
            == s.subrange(skip_ws(s, i), next),
        intconst(s, i) matches Outcome::Accept { value: IntconstView::Decnum(text), next }
            ==> is_decimal_literal(text) && text == s.subrange(skip_ws(s, i), next),
        intconst(s, i) matches Outcome::Accept { value: IntconstView::Hexnum(text), next }
            ==> is_hex_literal(text) && text == s.subrange(skip_ws(s, i), next),
{
    lemma_skip_ws(s, i);
    let j = skip_ws(s, i);
    if j < s.len() {
        lemma_run_end(s, j, CharClass::Digit);
        lemma_run_end(s, j + 1, CharClass::Digit);
    }
    if j + 2 < s.len() {
        lemma_run_end(s, j + 2, CharClass::HexDigit);
    }
}

/// A run over a text that holds nothing but characters of the class ends
/// where the text ends.
pub proof fn lemma_run_to_the_end(t: Seq<char>, i: int, class: CharClass)
    requires
        0 <= i <= t.len(),
        forall|k: int| i <= k < t.len() ==> class.holds(#[trigger] t[k]),
    ensures
        run_end(t, i, class) == t.len(),
    decreases t.len() - i,
{
    if i < t.len() {
        lemma_run_to_the_end(t, i + 1, class);
    }
}

/// No character of an identifier or of a literal is white space.
pub proof fn lemma_word_characters_are_no_whitespace(c: char)
    ensures
        is_ident_part(c) ==> !is_whitespace(c),
        is_hex_digit(c) ==> !is_whitespace(c),
{
}

/// Writing an identifier down and reading it gives the identifier back.
pub proof fn lemma_identifier_round_trip(t: Seq<char>)
    requires
        is_identifier(t),
    ensures
        identifier(t, 0) == (Outcome::Accept { value: t, next: t.len() as int }),
{
    lemma_word_characters_are_no_whitespace(t[0]);
    lemma_run_to_the_end(t, 1, CharClass::Word);
    assert(t.subrange(0, t.len() as int) =~= t);
}

/// Writing a literal down and reading it gives the literal back, digit for
/// digit.
pub proof fn lemma_literal_round_trip(t: Seq<char>)
    ensures
        is_decimal_literal(t) ==> decnum(t, 0) == (Outcome::Accept {
            value: t,
            next: t.len() as int,
        }),
        is_decimal_literal(t) ==> intconst(t, 0) == (Outcome::Accept {
            value: IntconstView::Decnum(t),
            next: t.len() as int,
        }),
        is_hex_literal(t) ==> hexnum(t, 0) == (Outcome::Accept { value: t, next: t.len() as int }),
        is_hex_literal(t) ==> intconst(t, 0) == (Outcome::Accept {
            value: IntconstView::Hexnum(t),
            next: t.len() as int,
        }),
{
    if is_decimal_literal(t) {
        lemma_word_characters_are_no_whitespace(t[0]);
        lemma_run_to_the_end(t, 0, CharClass::Digit);
        assert(t.subrange(0, t.len() as int) =~= t);
        if t[0] == '0' {
            assert(t.subrange(0, 1) =~= t);
        }
    }
    if is_hex_literal(t) {
        lemma_word_characters_are_no_whitespace(t[0]);
        lemma_run_to_the_end(t, 2, CharClass::HexDigit);
        assert(t.subrange(0, t.len() as int) =~= t);
        assert(is_hex_digit(t[2]));
    }
}

/// The end of the run of `class` that starts at `pos`.
pub(crate) fn scan(src: &Source, pos: usize, class: CharClass) -> (r: usize)
    requires
        pos <= src@.len(),
    ensures
        r == run_end(src@, pos as int, class),
        pos <= r <= src@.len() <= usize::MAX,
{
    let mut at: usize = pos;
    let n: usize = src.len();
    loop
        invariant_except_break
            pos <= at <= n,
            n == src@.len(),
            run_end(src@, pos as int, class) == run_end(src@, at as int, class),
        ensures
            pos <= at <= n,
            n == src@.len(),
            at == run_end(src@, pos as int, class),
        decreases n - at,
    {
        match src.peek(at) {
            Some(c) => {
                if class.test(c) {
                    at = at + 1;
                } else {
                    break ;
                }
            },
            None => {
                break ;
            },
        }
    }
    at
}

/// The position of the first character at or behind `pos` that is no white
/// space.
pub(crate) fn skip_whitespace(src: &Source, pos: usize) -> (r: usize)
    requires
        pos <= src@.len(),
    ensures
        r == skip_ws(src@, pos as int),
        pos <= r <= src@.len() <= usize::MAX,
{
    scan(src, pos, CharClass::Whitespace)
}

/// The end of the word that starts at `pos`.
pub(crate) fn scan_word(src: &Source, pos: usize) -> (r: usize)
    requires
        pos <= src@.len(),
    ensures
        r == word_end(src@, pos as int),
        pos <= r <= src@.len(),
{
    match src.peek(pos) {
        Some(c) => {
            if ('a' <= c && c <= 'z') || ('A' <= c && c <= 'Z') || c == '_' {
                scan(src, pos + 1, CharClass::Word)
            } else {
                pos
            }
        },
        None => pos,
    }
}

/// Whether the characters from `from` up to `to` spell `word`.
pub(crate) fn spells(src: &Source, from: usize, to: usize, word: &str) -> (r: bool)
    requires
        from <= to <= src@.len(),
    ensures
        r == (src@.subrange(from as int, to as int) == word@),
{
    let n: usize = word.unicode_len();
    if to - from != n {
        return false;
    }
    let mut k: usize = 0;
    while k < n
        invariant
            k <= n,
            n == word@.len(),
            to - from == n,
            from <= to <= src@.len(),
            forall|m: int| 0 <= m < k ==> src@[from + m] == word@[m],
        decreases n - k,
    {
        if src.peek(from + k) != Some(word.get_char(k)) {
            assert(src@.subrange(from as int, to as int)[k as int] != word@[k as int]);
            return false;
        }
        k = k + 1;
    }
    assert(src@.subrange(from as int, to as int) =~= word@);
    true
}

/// Whether the characters from `from` up to `to` spell a reserved word.
pub(crate) fn reserved(src: &Source, from: usize, to: usize) -> (r: bool)
    requires
        from <= to <= src@.len(),
    ensures
        r == is_reserved(src@.subrange(from as int, to as int)),
{
    spells(src, from, to, "struct") || spells(src, from, to, "if") || spells(src, from, to, "else")
        || spells(src, from, to, "while") || spells(src, from, to, "for") || spells(
        src,
        from,
        to,
        "continue",
    ) || spells(src, from, to, "break") || spells(src, from, to, "return") || spells(
        src,
        from,
        to,
        "assert",
    ) || spells(src, from, to, "true") || spells(src, from, to, "false") || spells(
        src,
        from,
        to,
        "NULL",
    ) || spells(src, from, to, "print") || spells(src, from, to, "read") || spells(
        src,
        from,
        to,
        "alloc",
    ) || spells(src, from, to, "alloc_array") || spells(src, from, to, "int") || spells(
        src,
        from,
        to,
        "bool",
    ) || spells(src, from, to, "void") || spells(src, from, to, "char") || spells(
        src,
        from,
        to,
        "string",
    )
}

/// Reads the word `word`.
pub(crate) fn read_keyword(src: &Source, pos: usize, word: Word) -> (r: Result<((), usize), Failure>)
    requires
        pos <= src@.len(),
    ensures
        agrees(r, keyword(src@, pos as int, word)),
        r matches Ok((_, next)) ==> pos < next <= src@.len(),
{
    let j = skip_whitespace(src, pos);
    let e = scan_word(src, j);
    if spells(src, j, e, word.as_str()) {
        proof {
            reveal_strlit("int");
            reveal_strlit("main");
            reveal_strlit("return");
            assert(src@.subrange(j as int, e as int).len() == e - j);
        }
        Ok(((), e))
    } else {
        Err(Failure { at: j, expected: Expected::Word(word) })
    }
}

/// Reads the character `c`.
pub(crate) fn read_symbol(src: &Source, pos: usize, c: char) -> (r: Result<((), usize), Failure>)
    requires
        pos <= src@.len(),
    ensures
        agrees(r, symbol(src@, pos as int, c)),
        r matches Ok((_, next)) ==> pos < next <= src@.len(),
{
    let j = skip_whitespace(src, pos);
    if src.peek(j) == Some(c) {
        Ok(((), j + 1))
    } else {
        Err(Failure { at: j, expected: Expected::Symbol(c) })
    }
}

/// Reads an identifier.
pub(crate) fn read_identifier<'a>(src: &Source<'a>, pos: usize) -> (r: Result<
    (Identifier<'a>, usize),
    Failure,
>)
    requires
        pos <= src@.len(),
    ensures
        agrees(r, identifier(src@, pos as int)),
        r matches Ok((_, next)) ==> pos < next <= src@.len(),
{
    let j = skip_whitespace(src, pos);
    let e = scan_word(src, j);
    if e > j && !reserved(src, j, e) {
        Ok((Identifier(src.slice(j, e)), e))
    } else {
        Err(Failure { at: j, expected: Expected::Identifier })
    }
}

/// Whether a hexadecimal literal starts at `j`.
pub(crate) fn starts_hex(src: &Source, j: usize) -> (r: bool)
    requires
        j <= src@.len(),
    ensures
        r == hex_starts(src@, j as int),
{
    if src.len() - j < 3 {
        return false;
    }
    let x = src.peek(j + 1);
    src.peek(j) == Some('0') && (x == Some('x') || x == Some('X')) && match src.peek(j + 2) {
        Some(c) => CharClass::HexDigit.test(c),
        None => false,
    }
}

/// Reads a decimal literal.
pub(crate) fn read_decnum<'a>(src: &Source<'a>, pos: usize) -> (r: Result<(Decnum<'a>, usize), Failure>)
    requires
        pos <= src@.len(),
    ensures
        agrees(r, decnum(src@, pos as int)),
        r matches Ok((_, next)) ==> pos < next <= src@.len(),
{
    let j = skip_whitespace(src, pos);
    match src.peek(j) {
        Some(c) => {
            if c == '0' {
                Ok((Decnum(src.slice(j, j + 1)), j + 1))
            } else if CharClass::Digit.test(c) {
                let e = scan(src, j, CharClass::Digit);
                proof {
                    lemma_run_end(src@, j + 1, CharClass::Digit);
                }
                Ok((Decnum(src.slice(j, e)), e))
            } else {
                Err(Failure { at: j, expected: Expected::DecimalLiteral })
            }
        },
        None => Err(Failure { at: j, expected: Expected::DecimalLiteral }),
    }
}

/// Reads a hexadecimal literal.
pub(crate) fn read_hexnum<'a>(src: &Source<'a>, pos: usize) -> (r: Result<(Hexnum<'a>, usize), Failure>)
    requires
        pos <= src@.len(),
    ensures
        agrees(r, hexnum(src@, pos as int)),
        r matches Ok((_, next)) ==> pos < next <= src@.len(),
{
    let j = skip_whitespace(src, pos);
    if starts_hex(src, j) {
        let e = scan(src, j + 2, CharClass::HexDigit);
        Ok((Hexnum(src.slice(j, e)), e))
    } else {
        Err(Failure { at: j, expected: Expected::HexLiteral })
    }
}

/// Reads an integer literal.
pub(crate) fn read_intconst<'a>(src: &Source<'a>, pos: usize) -> (r: Result<
    (Intconst<'a>, usize),
    Failure,
>)
    requires
        pos <= src@.len(),
    ensures
        agrees(r, intconst(src@, pos as int)),
        r matches Ok((_, next)) ==> pos < next <= src@.len(),
{
    let j = skip_whitespace(src, pos);
    if starts_hex(src, j) {
        match read_hexnum(src, pos) {
            Ok((h, next)) => Ok((Intconst::Hexnum(h), next)),
            Err(f) => Err(f),
        }
    } else {
        match read_decnum(src, pos) {
            Ok((d, next)) => Ok((Intconst::Decnum(d), next)),
            Err(f) => Err(f),
        }
    }
}

} // verus!
