use l1_frontend::analyzer::{integer_range, return_exists, syntax};
use l1_frontend::diagnostics::{render, render_all, Diagnostic, Severity};
use l1_frontend::parser::Span;
use l1_frontend::source::slice_bytes;
use l1_frontend::tree::{nodes, Node, ParsedSource};

/// A node of kind `kind` over the first place where `part` stands in
/// `source` at or behind `from`.
fn over(source: &str, kind: &str, part: &str, from: usize, children: Vec<Node>) -> Node {
    let start = from + source[from..].find(part).unwrap();
    Node::new(kind, start, start + part.len(), children)
}

/// The tree of a program whose body is the statements `statements`, each
/// with the literals that it holds.
fn program(source: &str, statements: &[(&str, &[&str])]) -> ParsedSource {
    let mut parts = Vec::new();
    let mut from = source.find('{').unwrap() + 1;
    for (statement, literals) in statements {
        let start = from + source[from..].find(statement).unwrap();
        let mut inner = Vec::new();
        let mut at = start;
        for literal in literals.iter() {
            let node = over(source, "intconst", literal, at, Vec::new());
            at = node.end;
            inner.push(node);
        }
        parts.push(Node::new("statement", start, start + statement.len(), inner));
        from = start + statement.len();
    }
    ParsedSource {
        text: source.to_string(),
        root: Node::new("source_file", 0, source.len(), parts),
        color: false,
    }
}

// == integer range

#[test]
fn max_dec_int() {
    let source = program("int main() { return 2147483648; }", &[("return 2147483648;", &["2147483648"])]);
    assert!(integer_range::analyze(&source).is_ok());
}

#[test]
fn min_dec_int() {
    let source = program("int main() { return -2147483648; }", &[("return -2147483648;", &["2147483648"])]);
    assert!(integer_range::analyze(&source).is_ok());
}

#[test]
fn too_big_dec_int() {
    let source = program("int main() { return 2147483649; }", &[("return 2147483649;", &["2147483649"])]);
    assert!(integer_range::analyze(&source).is_err());
}

#[test]
fn too_small_dec_int() {
    let source = program("int main() { return -2147483649; }", &[("return -2147483649;", &["2147483649"])]);
    assert!(integer_range::analyze(&source).is_err());
}

// == hex ==

#[test]
fn max_hex_int_with_small_x() {
    let source = program("int main() { return 0x0; }", &[("return 0x0;", &["0x0"])]);
    assert!(integer_range::analyze(&source).is_ok());
}

#[test]
fn min_hex_int_with_small_x() {
    let source = program("int main() { return -0x0; }", &[("return -0x0;", &["0x0"])]);
    assert!(integer_range::analyze(&source).is_ok());
}

#[test]
fn max_hex_int_with_big_x() {
    let source = program("int main() { return 0X0; }", &[("return 0X0;", &["0X0"])]);
    assert!(integer_range::analyze(&source).is_ok());
}

#[test]
fn min_hex_int_with_big_x() {
    let source = program("int main() { return -0X0; }", &[("return -0X0;", &["0X0"])]);
    assert!(integer_range::analyze(&source).is_ok());
}

#[test]
fn every_literal_out_of_range_is_reported() {
    let source = program(
        "int main() { int a = 2147483649 + 1; int b = 0x100000000 - 4294967296; return 0xFFFFFFFF; }",
        &[
            ("int a = 2147483649 + 1;", &["2147483649", "1"]),
            ("int b = 0x100000000 - 4294967296;", &["0x100000000", "4294967296"]),
            ("return 0xFFFFFFFF;", &["0xFFFFFFFF"]),
        ],
    );
    let reports = integer_range::collect_errors(&source);
    assert_eq!(reports.len(), 3);
    assert_eq!(
        reports[0],
        Diagnostic {
            severity: Severity::Error,
            span: Span { start: 21, end: 31 },
            message: "Invalid integer".to_string(),
            label: Some("Integer is too high".to_string()),
        }
    );
    assert_eq!(
        reports[1],
        Diagnostic {
            severity: Severity::Error,
            span: Span { start: 45, end: 56 },
            message: "number too large to fit in target type".to_string(),
            label: Some("Invalid integer".to_string()),
        }
    );
    assert_eq!(reports[2].span, Span { start: 59, end: 69 });
    assert_eq!(reports[2].message, "number too large to fit in target type");
    let errors = integer_range::analyze(&source).unwrap_err();
    assert_eq!(errors.len(), 3);
    for (error, report) in errors.iter().zip(reports.iter()) {
        assert_eq!(error.0, render(&source.text, report, false));
    }
    assert_eq!(integer_range::HEADLINE, "Noob");
}

#[test]
fn literal_that_is_no_number_is_reported() {
    let mut source = program("int main() { return 12ab; }", &[("return 12ab;", &["12ab"])]);
    let reports = integer_range::collect_errors(&source);
    assert_eq!(reports.len(), 1);
    assert_eq!(reports[0].message, "invalid digit found in string");
    assert_eq!(reports[0].label, Some("Invalid integer".to_string()));
    source.root.children[0].children[0].end = 1000;
    let reports = integer_range::collect_errors(&source);
    assert_eq!(reports.len(), 1);
    assert_eq!(reports[0].message, "cannot parse integer from empty string");
    assert_eq!(reports[0].span, Span { start: 20, end: 1000 });
}

#[test]
fn literal_judged_alone() {
    let span = Span { start: 0, end: 0 };
    assert_eq!(integer_range::judge("0", span), None);
    assert_eq!(integer_range::judge("2147483648", span), None);
    assert!(integer_range::judge("2147483649", span).is_some());
    assert_eq!(integer_range::judge("0xffffffff", span), None);
    assert!(integer_range::judge("0x", span).is_some());
    assert!(integer_range::judge("ffff", span).is_some());
    assert!(integer_range::judge("", span).is_some());
}

// == return

#[test]
fn has_return() {
    let source = program("int main() { return 0; }", &[("return 0;", &["0"])]);
    assert!(return_exists::analyze(&source).is_ok());
}

#[test]
fn missing_return() {
    let source = program(
        "int main() { int a = 42; int b = 0xCAFEBABE; }",
        &[("int a = 42;", &["42"]), ("int b = 0xCAFEBABE;", &["0xCAFEBABE"])],
    );
    assert!(return_exists::analyze(&source).is_err());
}

#[test]
fn missing_return_is_reported_at_the_first_byte() {
    let source = program("int main() { int a = 42; }", &[("int a = 42;", &["42"])]);
    let reports = return_exists::collect_errors(&source);
    assert_eq!(
        reports,
        vec![Diagnostic {
            severity: Severity::Error,
            span: Span { start: 0, end: 1 },
            message: "Missing `return` statement!".to_string(),
            label: None,
        }]
    );
    let errors = return_exists::analyze(&source).unwrap_err();
    assert_eq!(errors.len(), 1);
    assert_eq!(errors[0].message(), "Error: Missing `return` statement!\n");
    assert_eq!(return_exists::HEADLINE, "Invalid program");
}

#[test]
fn only_a_statement_that_begins_with_return_counts() {
    let text = "int main() { int returned = 1; }";
    let source = program(text, &[("int returned = 1;", &["1"])]);
    assert!(return_exists::analyze(&source).is_err());
    assert!(!return_exists::examine(text, &source.root));
    assert!(!return_exists::examine(text, &source.root.children[0]));
    let text = "int main() { int a; return a; }";
    let source = program(text, &[("int a;", &[]), ("return a;", &[])]);
    assert!(return_exists::analyze(&source).is_ok());
    assert!(return_exists::examine(text, &source.root.children[1]));
    let other = ParsedSource {
        text: text.to_string(),
        root: Node::new("expression", 20, 29, Vec::new()),
        color: false,
    };
    assert!(return_exists::analyze(&other).is_err());
}

// == syntax

#[test]
fn valid_code() {
    let source = program("int main() { return 0; }", &[("return 0;", &["0"])]);
    assert!(syntax::analyze(&source).is_ok());
}

#[test]
fn missing_equal_sign() {
    let text = "int main() { int a 10; return 0; }";
    let source = ParsedSource {
        text: text.to_string(),
        root: Node::new(
            "source_file",
            0,
            text.len(),
            vec![
                Node::new(
                    "statement",
                    13,
                    22,
                    vec![Node::error(19, 21, vec![Node::new("intconst", 19, 21, Vec::new())])],
                ),
                Node::new("statement", 23, 32, vec![Node::new("intconst", 30, 31, Vec::new())]),
            ],
        ),
        color: false,
    };
    assert!(syntax::analyze(&source).is_err());
}

#[test]
fn missing_bracket() {
    let text = "int main() { return 0; ";
    let source = ParsedSource {
        text: text.to_string(),
        root: Node::new(
            "source_file",
            0,
            text.len(),
            vec![
                Node::new("statement", 13, 22, vec![Node::new("intconst", 20, 21, Vec::new())]),
                Node::missing("}", text.len()),
            ],
        ),
        color: false,
    };
    assert!(syntax::analyze(&source).is_err());
    let reports = syntax::collect_errors(&source);
    assert_eq!(
        reports,
        vec![Diagnostic {
            severity: Severity::Error,
            span: Span { start: 23, end: 23 },
            message: String::new(),
            label: Some("'}' is missing".to_string()),
        }]
    );
}

#[test]
fn errors_come_in_the_order_of_the_walk() {
    let text = "0123456789";
    let source = ParsedSource {
        text: text.to_string(),
        root: Node::error(
            0,
            10,
            vec![
                Node::new(
                    "a",
                    0,
                    5,
                    vec![Node::missing(";", 2), Node::new("b", 2, 4, vec![Node::error(3, 4, Vec::new())])],
                ),
                Node::missing("}", 7),
                Node::new("c", 7, 10, Vec::new()),
            ],
        ),
        color: false,
    };
    let reports = syntax::collect_errors(&source);
    let spans: Vec<(usize, usize)> = reports.iter().map(|r| (r.span.start, r.span.end)).collect();
    assert_eq!(spans, vec![(0, 10), (2, 2), (3, 4), (7, 7)]);
    let labels: Vec<&str> = reports.iter().map(|r| r.label.as_deref().unwrap()).collect();
    assert_eq!(labels, vec!["sus", "';' is missing", "sus", "'}' is missing"]);
    let messages: Vec<&str> = reports.iter().map(|r| r.message.as_str()).collect();
    assert_eq!(messages, vec!["Syntax error", "", "Syntax error", ""]);
    let errors = syntax::analyze(&source).unwrap_err();
    assert_eq!(errors.len(), 4);
    let texts = render_all(text, &reports, false);
    for (error, text) in errors.iter().zip(texts.iter()) {
        assert_eq!(&error.0, text);
    }
    assert_eq!(syntax::HEADLINE, "Skill issue");
}

#[test]
fn a_node_that_is_neither_gives_nothing() {
    let plain = Node::new("statement", 0, 3, Vec::new());
    assert_eq!(syntax::examine(&plain), None);
    assert!(syntax::examine(&Node::error(0, 3, Vec::new())).is_some());
    assert!(syntax::examine(&Node::missing("x", 3)).is_some());
}

// == the tree

#[test]
fn walk_takes_a_node_in_front_of_its_parts() {
    let tree = Node::new(
        "a",
        0,
        9,
        vec![
            Node::new("b", 0, 3, vec![Node::new("c", 0, 1, Vec::new()), Node::new("d", 1, 3, Vec::new())]),
            Node::new("e", 3, 6, Vec::new()),
            Node::new("f", 6, 9, vec![Node::new("g", 6, 9, vec![Node::new("h", 7, 8, Vec::new())])]),
        ],
    );
    let kinds: Vec<&str> = nodes(&tree).iter().map(|n| n.kind.as_str()).collect();
    assert_eq!(kinds, vec!["a", "b", "c", "d", "e", "f", "g", "h"]);
    let leaf = Node::missing("x", 4);
    assert_eq!(nodes(&leaf).len(), 1);
}

#[test]
fn span_of_a_node_never_runs_backwards() {
    assert_eq!(Node::new("a", 2, 5, Vec::new()).byte_range(), Span { start: 2, end: 5 });
    assert_eq!(Node::new("a", 5, 2, Vec::new()).byte_range(), Span { start: 5, end: 5 });
    assert_eq!(Node::missing("a", 7).byte_range(), Span { start: 7, end: 7 });
}

#[test]
fn bytes_are_sliced_at_character_boundaries_only() {
    let text = "aé€b";
    assert_eq!(slice_bytes(text, 0, 1), Some("a"));
    assert_eq!(slice_bytes(text, 1, 3), Some("é"));
    assert_eq!(slice_bytes(text, 3, 6), Some("€"));
    assert_eq!(slice_bytes(text, 1, 7), Some("é€b"));
    assert_eq!(slice_bytes(text, 0, 7), Some(text));
    assert_eq!(slice_bytes(text, 7, 7), Some(""));
    assert_eq!(slice_bytes(text, 3, 3), Some(""));
    assert_eq!(slice_bytes(text, 2, 3), None);
    assert_eq!(slice_bytes(text, 1, 2), None);
    assert_eq!(slice_bytes(text, 4, 6), None);
    assert_eq!(slice_bytes(text, 3, 2), None);
    assert_eq!(slice_bytes(text, 0, 8), None);
    assert_eq!(slice_bytes(text, 8, 9), None);
}

// == rendering

fn diagnostic(start: usize, end: usize, message: &str, label: Option<&str>) -> Diagnostic {
    Diagnostic {
        severity: Severity::Error,
        span: Span { start, end },
        message: message.to_string(),
        label: label.map(|l| l.to_string()),
    }
}

#[test]
fn rendering_shows_the_message_and_the_place() {
    let text = "int main() {\n    return 2147483649;\n}\n";
    let rendered = render(text, &diagnostic(24, 34, "Invalid integer", Some("Integer is too high")), false);
    assert!(rendered.starts_with("Error: Invalid integer\n"), "{}", rendered);
    assert!(rendered.contains("2:12"), "{}", rendered);
    assert!(rendered.contains("return 2147483649;"), "{}", rendered);
    assert!(rendered.contains("Integer is too high"), "{}", rendered);
    assert!(!rendered.contains('\u{1b}'), "{}", rendered);
    assert_ne!(rendered, "Invalid integer");
}

#[test]
fn rendering_without_label_is_the_headline() {
    let text = "int main() { }";
    assert_eq!(
        render(text, &diagnostic(0, 1, "Missing `return` statement!", None), false),
        "Error: Missing `return` statement!\n"
    );
    assert_eq!(render("", &diagnostic(0, 1, "Missing `return` statement!", None), false),
        "Error: Missing `return` statement!\n");
}

#[test]
fn rendering_names_the_severity() {
    let mut d = diagnostic(0, 3, "m", None);
    d.severity = Severity::Warning;
    assert_eq!(render("int", &d, false), "Warning: m\n");
    d.severity = Severity::Advice;
    assert_eq!(render("int", &d, false), "Advice: m\n");
}

#[test]
fn rendering_with_colours_holds_colour_codes() {
    let text = "int main() { return 0; ";
    let plain = render(text, &diagnostic(23, 23, "", Some("'}' is missing")), false);
    let coloured = render(text, &diagnostic(23, 23, "", Some("'}' is missing")), true);
    assert!(plain.contains("'}' is missing"), "{}", plain);
    assert!(coloured.contains("'}' is missing"), "{}", coloured);
    assert!(!plain.contains('\u{1b}'));
}

#[test]
fn rendering_takes_any_span() {
    let text = "aé€b\nsecond line\n";
    for start in 0..=text.len() + 2 {
        for end in start..=text.len() + 2 {
            let rendered = render(text, &diagnostic(start, end, "m", Some("l")), false);
            assert!(rendered.starts_with("Error: m\n"), "{}..{}: {}", start, end, rendered);
        }
    }
    assert!(render("", &diagnostic(0, 0, "m", Some("l")), false).starts_with("Error: m\n"));
}

#[test]
fn backwards_span_is_rendered_as_the_message() {
    assert_eq!(render("int", &diagnostic(2, 1, "only this", Some("l")), false), "only this");
    assert_eq!(render("int", &diagnostic(2, 1, "only this", Some("l")), true), "only this");
}

#[test]
fn rendering_is_the_same_on_every_call() {
    let text = "int main() {\n    return 2147483649;\n}\n";
    let d = diagnostic(24, 34, "Invalid integer", Some("Integer is too high"));
    assert_eq!(render(text, &d, false), render(text, &d, false));
    let both = render_all(text, &vec![d.clone(), d.clone()], false);
    assert_eq!(both.len(), 2);
    assert_eq!(both[0], both[1]);
    assert_eq!(both[0], render(text, &d, false));
}

// == the passes in order

#[test]
fn syntax_errors_stop_the_other_passes() {
    let text = "int main() { int a = 2147483649 ";
    let source = ParsedSource {
        text: text.to_string(),
        root: Node::new(
            "source_file",
            0,
            text.len(),
            vec![
                Node::new("statement", 13, 31, vec![Node::new("intconst", 21, 31, Vec::new())]),
                Node::missing(";", 31),
                Node::missing("}", 32),
            ],
        ),
        color: false,
    };
    match l1_frontend::analyzer::analyze_source(&source) {
        Err(l1_frontend::analyzer::Rejection::Syntax(errors)) => assert_eq!(errors.len(), 2),
        other => panic!("{:?}", other),
    }
}

#[test]
fn range_is_looked_at_before_the_return() {
    let source = program("int main() { int a = 2147483649; }", &[("int a = 2147483649;", &["2147483649"])]);
    match l1_frontend::analyzer::analyze_source(&source) {
        Err(l1_frontend::analyzer::Rejection::IntegerRange(errors)) => assert_eq!(errors.len(), 1),
        other => panic!("{:?}", other),
    }
    let source = program("int main() { int a = 2147483648; }", &[("int a = 2147483648;", &["2147483648"])]);
    match l1_frontend::analyzer::analyze_source(&source) {
        Err(l1_frontend::analyzer::Rejection::MissingReturn(errors)) => assert_eq!(errors.len(), 1),
        other => panic!("{:?}", other),
    }
    let source = program("int main() { return 2147483648; }", &[("return 2147483648;", &["2147483648"])]);
    assert!(l1_frontend::analyzer::analyze_source(&source).is_ok());
}

#[test]
fn place_is_counted_in_characters() {
    let text = "äö = 2147483649;";
    let at = text.find("2147483649").unwrap();
    assert_eq!(at, 7);
    let rendered = render(text, &diagnostic(at, at + 10, "Invalid integer", Some("Integer is too high")), false);
    assert!(rendered.contains("1:6"), "{}", rendered);
    let ascii = render("ao = 2147483649;", &diagnostic(5, 15, "Invalid integer", Some("Integer is too high")), false);
    assert_eq!(rendered.replace("äö", "ao"), ascii);
}

#[test]
fn span_inside_a_character_shows_the_whole_character() {
    let text = "a€b";
    let whole = render(text, &diagnostic(1, 4, "m", Some("l")), false);
    assert_eq!(render(text, &diagnostic(2, 3, "m", Some("l")), false), whole);
    assert_eq!(render(text, &diagnostic(1, 2, "m", Some("l")), false), whole);
    assert_eq!(render(text, &diagnostic(3, 4, "m", Some("l")), false), whole);
    assert_ne!(render(text, &diagnostic(0, 1, "m", Some("l")), false), whole);
}

#[test]
fn missing_return_holds_its_text() {
    let error = return_exists::MissingReturn::new("no return".to_string());
    assert_eq!(error.message(), "no return");
}
