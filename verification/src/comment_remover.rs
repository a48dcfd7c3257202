//! Removal of comments from a source text before it is parsed.
//!
//! A line comment runs from `//` to the end of its line. A block comment
//! runs from `/*` to the `*/` that closes it; block comments nest. Inside a
//! block comment `//` means nothing, and inside a line comment `/*` and `*/`
//! mean nothing.
//!
//! What is left is the text outside the comments, character by character,
//! with one exception: a line comment in front of which its line holds
//! nothing but blanks takes the whole line with it, blanks and line break
//! included. A line comment behind code leaves its line break in place.

use vstd::prelude::*;
use vstd::string::StringExecFns;
use crate::source::Source;

verus! {

/// Whether `/*` stands at `i`.
pub open spec fn opens_at(s: Seq<char>, i: int) -> bool {
    0 <= i && i + 1 < s.len() && s[i] == '/' && s[i + 1] == '*'
}

/// Whether `*/` stands at `i`.
pub open spec fn closes_at(s: Seq<char>, i: int) -> bool {
    0 <= i && i + 1 < s.len() && s[i] == '*' && s[i + 1] == '/'
}

/// Whether `//` stands at `i`.
pub open spec fn line_comment_at(s: Seq<char>, i: int) -> bool {
    0 <= i && i + 1 < s.len() && s[i] == '/' && s[i + 1] == '/'
}

/// The position of the first line break at or behind `i`; the length of the
/// text where there is none.
pub open spec fn line_end(s: Seq<char>, i: int) -> int
    decreases s.len() - i,
{
    if 0 <= i < s.len() && s[i] != '\n' {
        line_end(s, i + 1)
    } else {
        i
    }
}

/// A space or a tab.
pub open spec fn is_blank(c: char) -> bool {
    c == ' ' || c == '\t'
}

/// Where the blanks at the end of `out` begin.
pub open spec fn blanks_start(out: Seq<char>) -> int
    decreases out.len(),
{
    if out.len() > 0 && is_blank(out.last()) {
        blanks_start(out.drop_last())
    } else {
        out.len() as int
    }
}

/// Whether the last line of `out` holds nothing but blanks.
pub open spec fn on_blank_line(out: Seq<char>) -> bool {
    blanks_start(out) == 0 || out[blanks_start(out) - 1] == '\n'
}

/// What is left of `s` from `i` on, behind the text `out` that is left of
/// the part in front of `i`, with `depth` block comments open at `i`.
/// `None` where a block comment is closed that was never opened, or one is
/// still open at the end.
pub open spec fn stripped(s: Seq<char>, i: int, depth: nat, out: Seq<char>) -> Option<Seq<char>>
    decreases s.len() - i,
{
    if i < 0 || i >= s.len() {
        if depth == 0 {
            Some(out)
        } else {
            None
        }
    } else if depth > 0 {
        if opens_at(s, i) {
            stripped(s, i + 2, depth + 1, out)
        } else if closes_at(s, i) {
            stripped(s, i + 2, (depth - 1) as nat, out)
        } else {
            stripped(s, i + 1, depth, out)
        }
    } else if line_comment_at(s, i) {
        proof {
            lemma_line_end(s, i + 1);
        }
        let end = line_end(s, i);
        if !on_blank_line(out) {
            stripped(s, end, 0, out)
        } else if end < s.len() {
            stripped(s, end + 1, 0, out.take(blanks_start(out)))
        } else {
            stripped(s, end, 0, out.take(blanks_start(out)))
        }
    } else if opens_at(s, i) {
        stripped(s, i + 2, 1, out)
    } else if closes_at(s, i) {
        None
    } else {
        stripped(s, i + 1, 0, out.push(s[i]))
    }
}

/// The text `s` without its comments; `None` where the block comments of
/// `s` are not balanced.
pub open spec fn without_comments(s: Seq<char>) -> Option<Seq<char>> {
    stripped(s, 0, 0, Seq::empty())
}

/// A line ends at or behind the position it is entered at, inside the text.
pub proof fn lemma_line_end(s: Seq<char>, i: int)
    requires
        0 <= i <= s.len(),
    ensures
        i <= line_end(s, i) <= s.len(),
        line_end(s, i) < s.len() ==> s[line_end(s, i)] == '\n',
    decreases s.len() - i,
{
    if i < s.len() && s[i] != '\n' {
        lemma_line_end(s, i + 1);
    }
}

/// Whether `s` holds none of `//`, `/*` and `*/`.
pub open spec fn is_plain(s: Seq<char>) -> bool {
    forall|i: int| !line_comment_at(s, i) && !opens_at(s, i) && !closes_at(s, i)
}

/// A text that holds no comment marker is left as it is.
pub proof fn lemma_plain_text_is_kept(s: Seq<char>)
    requires
        is_plain(s),
    ensures
        without_comments(s) == Some(s),
{
    assert(s.take(0) =~= Seq::<char>::empty());
    lemma_plain_rest_is_kept(s, 0);
}

/// What [`lemma_plain_text_is_kept`] says, from position `i` on.
proof fn lemma_plain_rest_is_kept(s: Seq<char>, i: int)
    requires
        is_plain(s),
        0 <= i <= s.len(),
    ensures
        stripped(s, i, 0, s.take(i)) == Some(s),
    decreases s.len() - i,
{
    if i == s.len() {
        assert(s.take(i) =~= s);
    } else {
        assert(!line_comment_at(s, i) && !opens_at(s, i) && !closes_at(s, i));
        assert(s.take(i).push(s[i]) =~= s.take(i + 1));
        lemma_plain_rest_is_kept(s, i + 1);
    }
}

/// What stands in front of the first comment marker is left as it is:
/// removing the comments goes on behind it with that text kept.
pub proof fn lemma_text_in_front_is_kept(s: Seq<char>, i: int)
    requires
        0 <= i <= s.len(),
        forall|k: int| 0 <= k < i ==> !line_comment_at(s, k) && !opens_at(s, k) && !closes_at(s, k),
    ensures
        without_comments(s) == stripped(s, i, 0, s.take(i)),
    decreases i,
{
    if i == 0 {
        assert(s.take(0) =~= Seq::<char>::empty());
    } else {
        lemma_text_in_front_is_kept(s, i - 1);
        assert(s.take(i - 1).push(s[i - 1]) =~= s.take(i));
    }
}

/// The characters of `s` at the positions `kept`, in their order.
pub open spec fn picked(s: Seq<char>, kept: Seq<usize>) -> Seq<char> {
    Seq::new(kept.len(), |k: int| s[kept[k] as int])
}

/// The characters of the source at the positions `kept`, as a string.
fn string_of(src: &Source, kept: &Vec<usize>) -> (r: String)
    requires
        forall|k: int| 0 <= k < kept@.len() ==> (#[trigger] kept@[k]) < src@.len(),
    ensures
        r@ == picked(src@, kept@),
{
    let mut text = String::new();
    let mut k: usize = 0;
    assert(picked(src@, kept@.take(0)) =~= Seq::<char>::empty());
    while k < kept.len()
        invariant
            k <= kept.len(),
            forall|i: int| 0 <= i < kept@.len() ==> (#[trigger] kept@[i]) < src@.len(),
            text@ == picked(src@, kept@.take(k as int)),
        decreases kept.len() - k,
    {
        let at = kept[k];
        let n = src.len();
        text.append(src.slice(at, at + 1));
        k = k + 1;
        assert(picked(src@, kept@.take(k as int)) =~= picked(src@, kept@.take(k - 1)) + src@.subrange(
            at as int,
            at + 1,
        ));
    }
    assert(kept@.take(k as int) =~= kept@);
    text
}

/// The position of the first line break at or behind `pos`.
fn find_line_end(src: &Source, pos: usize) -> (r: usize)
    requires
        pos <= src@.len(),
    ensures
        r == line_end(src@, pos as int),
        pos <= r <= src@.len(),
{
    let mut at = pos;
    loop
        invariant_except_break
            pos <= at <= src@.len(),
            line_end(src@, pos as int) == line_end(src@, at as int),
        ensures
            pos <= at <= src@.len(),
            at == line_end(src@, pos as int),
        decreases src@.len() - at,
    {
        match src.peek(at) {
            Some(c) => {
                if c == '\n' {
                    break ;
                }
                at = at + 1;
            },
            None => {
                break ;
            },
        }
    }
    at
}

/// Takes the blanks off the end of the text kept so far if its last line
/// holds nothing else, and tells whether it did.
fn drop_blank_line(src: &Source, kept: &mut Vec<usize>) -> (r: bool)
    requires
        forall|k: int| 0 <= k < old(kept)@.len() ==> (#[trigger] old(kept)@[k]) < src@.len(),
    ensures
        r == on_blank_line(picked(src@, old(kept)@)),
        r ==> picked(src@, final(kept)@) == picked(src@, old(kept)@).take(
            blanks_start(picked(src@, old(kept)@)),
        ),
        !r ==> final(kept)@ == old(kept)@,
        forall|k: int| 0 <= k < final(kept)@.len() ==> (#[trigger] final(kept)@[k]) < src@.len(),
{
    let ghost out = picked(src@, kept@);
    let mut k: usize = kept.len();
    assert(out.take(out.len() as int) =~= out);
    loop
        invariant_except_break
            k <= kept.len(),
            kept@ == old(kept)@,
            out == picked(src@, kept@),
            forall|i: int| 0 <= i < kept@.len() ==> (#[trigger] kept@[i]) < src@.len(),
            blanks_start(out) == blanks_start(out.take(k as int)),
        ensures
            k <= kept.len(),
            kept@ == old(kept)@,
            out == picked(src@, kept@),
            forall|i: int| 0 <= i < kept@.len() ==> (#[trigger] kept@[i]) < src@.len(),
            blanks_start(out) == k,
        decreases k,
    {
        if k == 0 {
            break ;
        }
        let c = src.peek(kept[k - 1]);
        assert(out.take(k as int).last() == src@[kept@[k - 1] as int]);
        if c == Some(' ') || c == Some('\t') {
            assert(out.take(k as int).drop_last() =~= out.take(k - 1));
            k = k - 1;
        } else {
            break ;
        }
    }
    let blank = if k == 0 {
        true
    } else {
        assert(out[k - 1] == src@[kept@[k - 1] as int]);
        src.peek(kept[k - 1]) == Some('\n')
    };
    if blank {
        kept.truncate(k);
        assert(picked(src@, kept@) =~= out.take(k as int));
        true
    } else {
        false
    }
}

/// Removes the comments from `code`.
///
/// Returns the text that [`without_comments`] describes, or an error where
/// the block comments of `code` are not balanced: a `*/` closes nothing, or
/// a `/*` is never closed.
pub fn remove_comments<'src>(code: &'src str) -> (r: Result<String, ()>)
    ensures
        match r {
            Ok(text) => without_comments(code@) == Some(text@),
            Err(_) => without_comments(code@) is None,
        },
{
    let src = Source::new(code);
    let n = src.len();
    let mut kept: Vec<usize> = Vec::new();
    let mut depth: usize = 0;
    let mut at: usize = 0;
    assert(picked(code@, kept@) =~= Seq::<char>::empty());
    while at < n
        invariant
            at <= n,
            n == src@.len(),
            src@ == code@,
            depth <= at,
            forall|k: int| 0 <= k < kept@.len() ==> (#[trigger] kept@[k]) < n,
            without_comments(code@) == stripped(
                code@,
                at as int,
                depth as nat,
                picked(code@, kept@),
            ),
        decreases n - at,
    {
        let c = src.peek(at).unwrap();
        let next = src.peek(at + 1);
        let opens = c == '/' && next == Some('*');
        let closes = c == '*' && next == Some('/');
        if depth > 0 {
            if opens {
                depth = depth + 1;
                at = at + 2;
            } else if closes {
                depth = depth - 1;
                at = at + 2;
            } else {
                at = at + 1;
            }
        } else if c == '/' && next == Some('/') {
            let end = find_line_end(&src, at);
            proof {
                lemma_line_end(src@, at + 1);
            }
            if drop_blank_line(&src, &mut kept) {
                at = if end < n {
                    end + 1
                } else {
                    n
                };
            } else {
                at = end;
            }
        } else if opens {
            depth = 1;
            at = at + 2;
        } else if closes {
            return Err(());
        } else {
            let ghost before = picked(code@, kept@);
            kept.push(at);
            assert(picked(code@, kept@) =~= before.push(c));
            at = at + 1;
        }
    }
    if depth != 0 {
        return Err(());
    }
    Ok(string_of(&src, &kept))
}

} // verus!
