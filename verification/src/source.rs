//! Source text held for parsing: the text itself, its characters laid out for
//! access by index, and the byte offset of each character.
//!
//! Positions inside the parser count characters; the spans that leave the
//! crate count bytes of the UTF-8 text, as [`byte_len`] defines them.

use vstd::prelude::*;
use vstd::utf8::{decode_utf8, encode_scalar, encode_utf8, is_char_boundary};
use vstd::string::StringSliceAdditionalSpecFns;

verus! {

/// The number of bytes that `c` takes in UTF-8.
pub open spec fn utf8_width(c: char) -> nat {
    if (c as u32) < 0x80 {
        1
    } else if (c as u32) < 0x800 {
        2
    } else if (c as u32) < 0x10000 {
        3
    } else {
        4
    }
}

/// The number of bytes that the characters `s` take in UTF-8.
pub open spec fn byte_len(s: Seq<char>) -> nat
    decreases s.len(),
{
    if s.len() == 0 {
        0
    } else {
        byte_len(s.drop_last()) + utf8_width(s.last())
    }
}

/// The byte offset of the character at index `i` of `s` (the length of the
/// text in bytes for `i == s.len()`).
pub open spec fn byte_offset(s: Seq<char>, i: int) -> nat {
    byte_len(s.take(i))
}

/// [`utf8_width`] is the length of the encoding that the standard library's
/// model of UTF-8 gives.
pub proof fn lemma_utf8_width_is_encoded_len(c: char)
    ensures
        encode_scalar(c as u32).len() == utf8_width(c),
{
}

/// A text is as long as its parts.
pub proof fn lemma_byte_len_concat(a: Seq<char>, b: Seq<char>)
    ensures
        byte_len(a + b) == byte_len(a) + byte_len(b),
    decreases b.len(),
{
    if b.len() == 0 {
        assert(a + b =~= a);
    } else {
        assert((a + b).drop_last() =~= a + b.drop_last());
        lemma_byte_len_concat(a, b.drop_last());
    }
}

/// [`byte_len`] is the length of the UTF-8 encoding of the text.
pub proof fn lemma_byte_len_is_encoded_len(s: Seq<char>)
    ensures
        byte_len(s) == encode_utf8(s).len(),
    decreases s.len(),
{
    if s.len() > 0 {
        lemma_byte_len_is_encoded_len(s.drop_first());
        lemma_utf8_width_is_encoded_len(s[0]);
        assert(s =~= seq![s[0]] + s.drop_first());
        lemma_byte_len_concat(seq![s[0]], s.drop_first());
        assert(seq![s[0]].drop_last() =~= Seq::<char>::empty());
        assert(byte_len(Seq::<char>::empty()) == 0);
        assert(byte_len(seq![s[0]]) == utf8_width(s[0]));
    }
}

/// Byte offsets grow with the index and end at the length of the text.
pub proof fn lemma_byte_offset_monotonic(s: Seq<char>, i: int, j: int)
    requires
        0 <= i <= j <= s.len(),
    ensures
        byte_offset(s, i) <= byte_offset(s, j) <= byte_len(s),
        byte_offset(s, s.len() as int) == byte_len(s),
        byte_offset(s, 0) == 0,
        i < j ==> byte_offset(s, i) + utf8_width(s[i]) <= byte_offset(s, j),
{
    assert(s.take(j) =~= s.take(i) + s.subrange(i, j));
    lemma_byte_len_concat(s.take(i), s.subrange(i, j));
    assert(s =~= s.take(j) + s.subrange(j, s.len() as int));
    lemma_byte_len_concat(s.take(j), s.subrange(j, s.len() as int));
    assert(s.take(s.len() as int) =~= s);
    assert(s.take(0) =~= Seq::<char>::empty());
    if i < j {
        assert(s.take(j) =~= s.take(i + 1) + s.subrange(i + 1, j));
        lemma_byte_len_concat(s.take(i + 1), s.subrange(i + 1, j));
        assert(s.take(i + 1).drop_last() =~= s.take(i));
    }
}

/// The number of characters of `s` that end at or in front of byte `b`:
/// the length of the longest prefix of `s` that takes at most `b` bytes.
pub open spec fn chars_within(s: Seq<char>, b: int) -> nat
    decreases s.len(),
{
    if s.len() == 0 || byte_len(s) <= b {
        s.len()
    } else {
        chars_within(s.drop_last(), b)
    }
}

/// The number of characters of `s` that begin in front of byte `b`: the
/// length of the shortest prefix of `s` that takes at least `b` bytes, or of
/// `s` where `s` is shorter.
pub open spec fn chars_reaching(s: Seq<char>, b: int) -> nat
    decreases s.len(),
{
    if s.len() == 0 || byte_len(s.drop_last()) < b {
        s.len()
    } else {
        chars_reaching(s.drop_last(), b)
    }
}

/// The prefix of `i` characters is the longest that takes at most `b`
/// bytes if it does and the next longer one does not.
pub proof fn lemma_chars_within(s: Seq<char>, b: int, i: int)
    requires
        0 <= i <= s.len(),
        byte_offset(s, i) <= b,
        i < s.len() ==> byte_offset(s, i + 1) > b,
    ensures
        chars_within(s, b) == i,
    decreases s.len(),
{
    assert(s.take(s.len() as int) =~= s);
    if i < s.len() {
        lemma_byte_offset_monotonic(s, i + 1, s.len() as int);
        let front = s.drop_last();
        assert(front.take(i) =~= s.take(i));
        if i < front.len() {
            assert(front.take(i + 1) =~= s.take(i + 1));
        }
        lemma_chars_within(front, b, i);
    }
}

/// The prefix of `i` characters is the shortest that takes at least `b`
/// bytes if it does (or is the whole text) and the next shorter one does
/// not.
pub proof fn lemma_chars_reaching(s: Seq<char>, b: int, i: int)
    requires
        0 <= i <= s.len(),
        byte_offset(s, i) >= b || i == s.len(),
        i > 0 ==> byte_offset(s, i - 1) < b,
    ensures
        chars_reaching(s, b) == i,
    decreases s.len(),
{
    assert(s.take(s.len() as int) =~= s);
    if s.len() > 0 {
        let front = s.drop_last();
        assert(front =~= s.take(s.len() - 1));
        if i < s.len() {
            lemma_byte_offset_monotonic(s, i, s.len() - 1);
            assert(front.take(i) =~= s.take(i));
            if i > 0 {
                assert(front.take(i - 1) =~= s.take(i - 1));
            }
            lemma_chars_reaching(front, b, i);
        }
    }
}

/// The longest prefix that takes at most `b` bytes takes at most `b` bytes.
pub proof fn lemma_chars_within_fit(s: Seq<char>, b: int)
    requires
        0 <= b,
    ensures
        chars_within(s, b) <= s.len(),
        byte_offset(s, chars_within(s, b) as int) <= b,
    decreases s.len(),
{
    assert(s.take(s.len() as int) =~= s);
    if s.len() > 0 && byte_len(s) > b {
        let front = s.drop_last();
        lemma_chars_within_fit(front, b);
        assert(front.take(chars_within(front, b) as int) =~= s.take(chars_within(front, b) as int));
    }
}

/// The shortest prefix that takes at least `b` bytes takes at least `b`
/// bytes, unless it is the whole text.
pub proof fn lemma_chars_reaching_fit(s: Seq<char>, b: int)
    ensures
        chars_reaching(s, b) <= s.len(),
        chars_reaching(s, b) == s.len() || byte_offset(s, chars_reaching(s, b) as int) >= b,
    decreases s.len(),
{
    if s.len() > 0 && byte_len(s.drop_last()) >= b {
        let front = s.drop_last();
        lemma_chars_reaching_fit(front, b);
        let c = chars_reaching(front, b) as int;
        assert(front.take(c) =~= s.take(c));
        assert(front.take(front.len() as int) =~= front);
    }
}

/// A range of bytes that does not run backwards gives a range of
/// characters that does not run backwards.
pub proof fn lemma_char_range_is_ordered(s: Seq<char>, start: int, end: int)
    requires
        0 <= start <= end,
    ensures
        chars_within(s, start) <= chars_reaching(s, end) <= s.len(),
{
    lemma_chars_within_fit(s, start);
    lemma_chars_reaching_fit(s, end);
    let a = chars_within(s, start) as int;
    let c = chars_reaching(s, end) as int;
    if a > c {
        lemma_byte_offset_monotonic(s, c, a);
    }
}

/// The number of bytes that `c` takes in UTF-8.
pub fn char_width(c: char) -> (r: usize)
    ensures
        r == utf8_width(c),
{
    let v: u32 = c as u32;
    if v < 0x80 {
        1
    } else if v < 0x800 {
        2
    } else if v < 0x10000 {
        3
    } else {
        4
    }
}

/// The text that the bytes from `start` to `end` of the text `s` hold;
/// `None` where they are no part of `s` or cut a character in two.
pub open spec fn text_between(s: Seq<char>, start: int, end: int) -> Option<Seq<char>> {
    let bytes = encode_utf8(s);
    if 0 <= start <= end <= bytes.len() && is_char_boundary(bytes, start) && is_char_boundary(
        bytes,
        end,
    ) {
        Some(decode_utf8(bytes.subrange(start, end)))
    } else {
        None
    }
}

/// The text between the bytes `start` and `end` of `text`.
pub fn slice_bytes<'a>(text: &'a str, start: usize, end: usize) -> (r: Option<&'a str>)
    ensures
        match r {
            Some(part) => text_between(text@, start as int, end as int) == Some(part@),
            None => text_between(text@, start as int, end as int) is None,
        },
{
    let n = text.as_bytes().len();
    if start <= end && end <= n && text.is_char_boundary(start) && text.is_char_boundary(end) {
        proof {
            vstd::utf8::encode_utf8_valid_utf8(text@);
            lemma_boundary_of_prefix(text.spec_bytes(), start as int, end as int);
        }
        let (head, _) = text.split_at(end);
        let (_, part) = head.split_at(start);
        proof {
            let bytes = text.spec_bytes();
            assert(head.spec_bytes().subrange(start as int, head.spec_bytes().len() as int)
                =~= bytes.subrange(start as int, end as int));
            vstd::utf8::encode_utf8_decode_utf8(part@);
        }
        Some(part)
    } else {
        None
    }
}

/// A character boundary of a text is one of each prefix of the text that
/// reaches it and ends at a boundary itself.
proof fn lemma_boundary_of_prefix(bytes: Seq<u8>, start: int, end: int)
    requires
        0 <= start <= end <= bytes.len(),
        vstd::utf8::valid_utf8(bytes),
        is_char_boundary(bytes, start),
        is_char_boundary(bytes, end),
    ensures
        vstd::utf8::valid_utf8(bytes.subrange(0, end)),
        is_char_boundary(bytes.subrange(0, end), start),
{
    let prefix = bytes.subrange(0, end);
    vstd::utf8::valid_utf8_split(bytes, end);
    if start == end {
        vstd::utf8::is_char_boundary_start_end_of_seq(prefix);
    } else {
        vstd::utf8::is_char_boundary_iff_not_is_continuation_byte(bytes, start);
        vstd::utf8::is_char_boundary_iff_not_is_continuation_byte(prefix, start);
    }
}

/// The encoding of a text is the encodings of its parts, one behind the
/// other.
pub proof fn lemma_encode_concat(a: Seq<char>, b: Seq<char>)
    ensures
        encode_utf8(a + b) == encode_utf8(a) + encode_utf8(b),
    decreases a.len(),
{
    if a.len() == 0 {
        assert(a + b =~= b);
        assert(encode_utf8(a) + encode_utf8(b) =~= encode_utf8(b));
    } else {
        assert((a + b).drop_first() =~= a.drop_first() + b);
        lemma_encode_concat(a.drop_first(), b);
        assert(encode_scalar(a[0] as u32) + (encode_utf8(a.drop_first()) + encode_utf8(b))
            =~= (encode_scalar(a[0] as u32) + encode_utf8(a.drop_first())) + encode_utf8(b));
    }
}

/// The byte offset of a character is a character boundary of the encoded
/// text.
pub proof fn lemma_offset_is_boundary(s: Seq<char>, i: int)
    requires
        0 <= i <= s.len(),
    ensures
        is_char_boundary(encode_utf8(s), byte_offset(s, i) as int),
        byte_offset(s, i) == encode_utf8(s.take(i)).len(),
        byte_offset(s, i) <= encode_utf8(s).len(),
    decreases i,
{
    vstd::utf8::encode_utf8_valid_utf8(s);
    lemma_byte_len_is_encoded_len(s.take(i));
    lemma_byte_len_is_encoded_len(s);
    lemma_byte_offset_monotonic(s, i, s.len() as int);
    if i > 0 {
        let rest = s.drop_first();
        let bytes = encode_utf8(s);
        vstd::utf8::encode_utf8_first_scalar(s);
        lemma_offset_is_boundary(rest, i - 1);
        assert(vstd::utf8::pop_first_scalar(bytes) =~= encode_utf8(rest));
        assert(s.take(i) =~= seq![s[0]] + rest.take(i - 1));
        lemma_encode_concat(seq![s[0]], rest.take(i - 1));
        assert(encode_utf8(seq![s[0]]) =~= encode_scalar(s[0] as u32)) by {
            assert(seq![s[0]].drop_first() =~= Seq::<char>::empty());
            assert(encode_utf8(Seq::<char>::empty()) =~= Seq::<u8>::empty());
        }
        lemma_byte_len_is_encoded_len(rest.take(i - 1));
        assert(byte_offset(s, i) == vstd::utf8::length_of_first_scalar(bytes) + byte_offset(
            rest,
            i - 1,
        ));
    }
}

/// The bytes between the offsets of two characters hold the characters
/// between them.
pub proof fn lemma_text_between_offsets(s: Seq<char>, from: int, to: int)
    requires
        0 <= from <= to <= s.len(),
    ensures
        text_between(s, byte_offset(s, from) as int, byte_offset(s, to) as int) == Some(
            s.subrange(from, to),
        ),
{
    lemma_offset_is_boundary(s, from);
    lemma_offset_is_boundary(s, to);
    lemma_byte_offset_monotonic(s, from, to);
    let head = s.take(from);
    let mid = s.subrange(from, to);
    let tail = s.skip(to);
    assert(s =~= head + mid + tail);
    assert(s.take(to) =~= head + mid);
    lemma_encode_concat(head + mid, tail);
    lemma_encode_concat(head, mid);
    assert(encode_utf8(s).subrange(byte_offset(s, from) as int, byte_offset(s, to) as int)
        =~= encode_utf8(mid));
    vstd::utf8::encode_utf8_decode_utf8(mid);
}

/// Whether `a` and `b` hold the same characters.
pub fn same_text(a: &str, b: &str) -> (r: bool)
    ensures
        r == (a@ == b@),
{
    let x = a.as_bytes();
    let y = b.as_bytes();
    if x.len() != y.len() {
        return false;
    }
    let n = x.len();
    let mut k: usize = 0;
    while k < n
        invariant
            k <= n,
            n == x@.len(),
            n == y@.len(),
            x@ == encode_utf8(a@),
            y@ == encode_utf8(b@),
            forall|m: int| 0 <= m < k ==> x@[m] == y@[m],
        decreases n - k,
    {
        if x[k] != y[k] {
            return false;
        }
        k = k + 1;
    }
    proof {
        assert(x@ =~= y@);
        vstd::utf8::encode_utf8_decode_utf8(a@);
        vstd::utf8::encode_utf8_decode_utf8(b@);
    }
    true
}

/// A source text together with its characters.
pub struct Source<'a> {
    text: &'a str,
    chars: Vec<char>,
    /// `offsets[i]` is the byte offset of character `i`; one entry more than
    /// there are characters.
    offsets: Vec<usize>,
}

impl<'a> View for Source<'a> {
    type V = Seq<char>;

    closed spec fn view(&self) -> Seq<char> {
        self.text@
    }
}

impl<'a> Source<'a> {
    #[verifier::type_invariant]
    closed spec fn wf(&self) -> bool {
        &&& self.chars@ == self.text@
        &&& self.offsets@.len() == self.chars@.len() + 1
        &&& forall|i: int|
            0 <= i <= self.chars@.len() ==> #[trigger] self.offsets@[i] == byte_offset(
                self.text@,
                i,
            )
    }

    /// Takes `text` as the source.
    pub fn new(text: &'a str) -> (r: Self)
        ensures
            r@ == text@,
    {
        let total: usize = text.as_bytes().len();
        proof {
            lemma_byte_len_is_encoded_len(text@);
        }
        let mut chars: Vec<char> = Vec::new();
        let mut offsets: Vec<usize> = Vec::new();
        let mut at: usize = 0;
        offsets.push(at);
        proof {
            lemma_byte_offset_monotonic(text@, 0, 0);
        }
        for c in it: text.chars()
            invariant
                it.seq() == text@,
                chars@ == it.seq().subrange(0, it.index()),
                offsets@.len() == chars@.len() + 1,
                at == byte_offset(text@, it.index()),
                byte_len(text@) == total,
                forall|i: int|
                    0 <= i <= chars@.len() ==> #[trigger] offsets@[i] == byte_offset(text@, i),
        {
            proof {
                lemma_byte_offset_monotonic(text@, it.index(), it.index() + 1);
                assert(text@.take(it.index() + 1).drop_last() =~= text@.take(it.index()));
            }
            at = at + char_width(c);
            chars.push(c);
            offsets.push(at);
        }
        assert(chars@ == text@);
        Source { text, chars, offsets }
    }

    /// The text.
    pub fn text(&self) -> (r: &'a str)
        ensures
            r@ == self@,
    {
        self.text
    }

    /// The number of characters.
    pub fn len(&self) -> (r: usize)
        ensures
            r == self@.len(),
    {
        proof {
            use_type_invariant(self);
        }
        self.chars.len()
    }

    /// The character at index `i`, if there is one.
    pub fn peek(&self, i: usize) -> (r: Option<char>)
        ensures
            r == (if i < self@.len() {
                Some(self@[i as int])
            } else {
                None
            }),
            self@.len() <= usize::MAX,
    {
        proof {
            use_type_invariant(self);
        }
        if i < self.chars.len() {
            Some(self.chars[i])
        } else {
            None
        }
    }

    /// The characters from index `from` up to index `to`, borrowed from the
    /// text; the empty text where these are no range of the characters.
    pub fn slice(&self, from: usize, to: usize) -> (r: &'a str)
        ensures
            r@ == (if from <= to <= self@.len() {
                self@.subrange(from as int, to as int)
            } else {
                Seq::empty()
            }),
    {
        proof {
            use_type_invariant(self);
            reveal_strlit("");
        }
        if from > to || to > self.chars.len() {
            return "";
        }
        proof {
            lemma_text_between_offsets(self@, from as int, to as int);
        }
        match slice_bytes(self.text, self.offsets[from], self.offsets[to]) {
            Some(part) => part,
            None => "",
        }
    }

    /// The number of characters that end at or in front of byte `b`.
    pub fn chars_within(&self, b: usize) -> (r: usize)
        ensures
            r == chars_within(self@, b as int),
            r <= self@.len(),
    {
        proof {
            use_type_invariant(self);
            lemma_byte_offset_monotonic(self@, 0, 0);
        }
        let n = self.chars.len();
        let mut i: usize = 0;
        while i < n && self.offsets[i + 1] <= b
            invariant
                i <= n,
                n == self@.len(),
                self.offsets@.len() == n + 1,
                forall|k: int| 0 <= k <= n ==> #[trigger] self.offsets@[k] == byte_offset(self@, k),
                byte_offset(self@, i as int) <= b,
            decreases n - i,
        {
            i = i + 1;
        }
        proof {
            lemma_chars_within(self@, b as int, i as int);
        }
        i
    }

    /// The number of characters that begin in front of byte `b`.
    pub fn chars_reaching(&self, b: usize) -> (r: usize)
        ensures
            r == chars_reaching(self@, b as int),
            r <= self@.len(),
    {
        proof {
            use_type_invariant(self);
        }
        let n = self.chars.len();
        let mut i: usize = 0;
        while i < n && self.offsets[i] < b
            invariant
                i <= n,
                n == self@.len(),
                self.offsets@.len() == n + 1,
                forall|k: int| 0 <= k <= n ==> #[trigger] self.offsets@[k] == byte_offset(self@, k),
                i > 0 ==> byte_offset(self@, i - 1) < b,
            decreases n - i,
        {
            i = i + 1;
        }
        proof {
            lemma_chars_reaching(self@, b as int, i as int);
        }
        i
    }

    /// The byte offset of the character at index `i`; from `i == len()` on,
    /// the length of the text in bytes.
    pub fn byte_offset(&self, i: usize) -> (r: usize)
        ensures
            r == (if i <= self@.len() {
                byte_offset(self@, i as int)
            } else {
                byte_len(self@)
            }),
    {
        proof {
            use_type_invariant(self);
            lemma_byte_offset_monotonic(self@, 0, self@.len() as int);
        }
        if i <= self.chars.len() {
            self.offsets[i]
        } else {
            self.offsets[self.chars.len()]
        }
    }
}

} // verus!
