use l1_frontend::comment_remover::remove_comments;

#[test]
fn comment_simple() {
    assert_eq!(
        remove_comments(
            r#"int main() {
                // I use arch btw.
                }"#
        ),
        Ok(r#"int main() {
                }"#
        .to_string())
    );
}

#[test]
fn text_without_comments_is_kept() {
    let text = "int main() {\n\tint a = 4 / 2 * 3;\n\treturn a;\n}\n";
    assert_eq!(remove_comments(text), Ok(text.to_string()));
    assert_eq!(remove_comments(""), Ok(String::new()));
    assert_eq!(remove_comments("/"), Ok("/".to_string()));
    assert_eq!(remove_comments("*"), Ok("*".to_string()));
    assert_eq!(remove_comments("a / b * c"), Ok("a / b * c".to_string()));
}

#[test]
fn line_comment_behind_code_leaves_the_line_break() {
    assert_eq!(
        remove_comments("int a; // first\nint b;"),
        Ok("int a; \nint b;".to_string())
    );
    assert_eq!(remove_comments("return 0; // done"), Ok("return 0; ".to_string()));
}

#[test]
fn line_comment_alone_takes_its_line() {
    assert_eq!(remove_comments("// top\nint main"), Ok("int main".to_string()));
    assert_eq!(remove_comments("a\n \t // c\nb"), Ok("a\nb".to_string()));
    assert_eq!(remove_comments("a\n  // c"), Ok("a\n".to_string()));
    assert_eq!(remove_comments("//"), Ok(String::new()));
    assert_eq!(remove_comments("// a\n// b\nc"), Ok("c".to_string()));
}

#[test]
fn block_comments_are_removed() {
    assert_eq!(remove_comments("a /* b */ c"), Ok("a  c".to_string()));
    assert_eq!(remove_comments("a /* b\n b */ c"), Ok("a  c".to_string()));
    assert_eq!(remove_comments("/**/"), Ok(String::new()));
    assert_eq!(remove_comments("x/* // */y"), Ok("xy".to_string()));
}

#[test]
fn block_comments_nest() {
    assert_eq!(remove_comments("a /* b /* c */ d */ e"), Ok("a  e".to_string()));
    assert_eq!(remove_comments("/*/**//**/*/x"), Ok("x".to_string()));
}

#[test]
fn unbalanced_block_comments_fail() {
    assert_eq!(remove_comments("a /* b"), Err(()));
    assert_eq!(remove_comments("a /* b /* c */"), Err(()));
    assert_eq!(remove_comments("a */ b"), Err(()));
    assert_eq!(remove_comments("/*/"), Err(()));
    assert_eq!(remove_comments("a /* b */ */"), Err(()));
}

#[test]
fn markers_inside_a_line_comment_mean_nothing() {
    assert_eq!(remove_comments("a // /* b\nc"), Ok("a \nc".to_string()));
    assert_eq!(remove_comments("a // */ b\nc"), Ok("a \nc".to_string()));
}

#[test]
fn text_behind_a_block_comment_is_no_blank_line() {
    assert_eq!(remove_comments("  /* a */ // b\nc"), Ok("c".to_string()));
    assert_eq!(remove_comments("x /* a */ // b\nc"), Ok("x  \nc".to_string()));
}

#[test]
fn characters_outside_ascii_pass_through() {
    assert_eq!(remove_comments("ä /* ö */ ü // ß\n€"), Ok("ä  ü \n€".to_string()));
}
