use l1_frontend::parser::lexical::{CharClass, Word};
use l1_frontend::source::{char_width, same_text, Source};

#[test]
fn source_knows_its_characters() {
    let src = Source::new("aé€😀b");
    assert_eq!(src.len(), 5);
    assert_eq!(src.text(), "aé€😀b");
    assert_eq!(src.peek(0), Some('a'));
    assert_eq!(src.peek(1), Some('é'));
    assert_eq!(src.peek(3), Some('😀'));
    assert_eq!(src.peek(4), Some('b'));
    assert_eq!(src.peek(5), None);
    assert_eq!(src.peek(usize::MAX), None);
    assert_eq!(Source::new("").len(), 0);
    assert_eq!(Source::new("").peek(0), None);
}

#[test]
fn slices_count_characters() {
    let src = Source::new("aé€😀b");
    assert_eq!(src.slice(0, 5), "aé€😀b");
    assert_eq!(src.slice(1, 3), "é€");
    assert_eq!(src.slice(3, 4), "😀");
    assert_eq!(src.slice(2, 2), "");
    assert_eq!(src.slice(5, 5), "");
}

#[test]
fn byte_offsets_follow_the_encoding() {
    let text = "aé€😀b";
    let src = Source::new(text);
    let expected: Vec<usize> = text.char_indices().map(|(at, _)| at).collect();
    for (index, at) in expected.iter().enumerate() {
        assert_eq!(src.byte_offset(index), *at);
    }
    assert_eq!(src.byte_offset(5), text.len());
    assert_eq!(Source::new("").byte_offset(0), 0);
    for c in ['\0', 'a', '\u{7f}', '\u{80}', 'é', '\u{7ff}', '\u{800}', '€', '\u{ffff}', '\u{10000}', '😀', '\u{10ffff}'] {
        assert_eq!(char_width(c), c.len_utf8());
    }
}

#[test]
fn bytes_are_counted_back_to_characters() {
    let text = "aé€😀b";
    let src = Source::new(text);
    let within: Vec<usize> = (0..=12).map(|b| src.chars_within(b)).collect();
    assert_eq!(within, vec![0, 1, 1, 2, 2, 2, 3, 3, 3, 3, 4, 5, 5]);
    let reaching: Vec<usize> = (0..=12).map(|b| src.chars_reaching(b)).collect();
    assert_eq!(reaching, vec![0, 1, 2, 2, 3, 3, 3, 4, 4, 4, 4, 5, 5]);
    let empty = Source::new("");
    assert_eq!(empty.chars_within(0), 0);
    assert_eq!(empty.chars_within(3), 0);
    assert_eq!(empty.chars_reaching(0), 0);
    assert_eq!(empty.chars_reaching(3), 0);
}

#[test]
fn texts_are_compared_by_their_characters() {
    assert!(same_text("", ""));
    assert!(same_text("abc", "abc"));
    assert!(same_text("é€", "é€"));
    assert!(!same_text("abc", "abd"));
    assert!(!same_text("abc", "ab"));
    assert!(!same_text("", "a"));
    assert!(!same_text("é", "e"));
}

#[test]
fn character_classes() {
    for c in [' ', '\t', '\n', '\r', '\u{b}', '\u{c}', '\u{85}', '\u{a0}', '\u{1680}', '\u{2000}', '\u{200a}', '\u{2028}', '\u{2029}', '\u{202f}', '\u{205f}', '\u{3000}'] {
        assert!(CharClass::Whitespace.test(c), "{:?}", c);
    }
    for c in ['a', '0', '_', '\u{8}', '\u{e}', '\u{1f}', '\u{200b}', '\u{feff}', '\u{180e}', '\u{2060}'] {
        assert!(!CharClass::Whitespace.test(c), "{:?}", c);
    }
    for code in 0..=0x3100u32 {
        if let Some(c) = char::from_u32(code) {
            assert_eq!(CharClass::Whitespace.test(c), c.is_whitespace(), "{:?}", c);
            assert_eq!(CharClass::Digit.test(c), c.is_ascii_digit(), "{:?}", c);
            assert_eq!(CharClass::HexDigit.test(c), c.is_ascii_hexdigit(), "{:?}", c);
            assert_eq!(CharClass::Word.test(c), c.is_ascii_alphanumeric() || c == '_', "{:?}", c);
        }
    }
}

#[test]
fn words_of_the_grammar() {
    assert_eq!(Word::Int.as_str(), "int");
    assert_eq!(Word::Main.as_str(), "main");
    assert_eq!(Word::Return.as_str(), "return");
}

#[test]
fn slices_and_offsets_outside_the_text() {
    let src = Source::new("aé€");
    assert_eq!(src.slice(2, 1), "");
    assert_eq!(src.slice(0, 4), "");
    assert_eq!(src.slice(4, 5), "");
    assert_eq!(src.byte_offset(3), 6);
    assert_eq!(src.byte_offset(4), 6);
    assert_eq!(src.byte_offset(usize::MAX), 6);
}
