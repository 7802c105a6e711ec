use hyper::highlight::{colorize_line, detect_operator, detect_property_chain, find_matching, role_color, Role, Span};

/// The spans with neighbouring plain characters merged.
fn compact(spans: &[Span]) -> Vec<(Role, String)> {
    let mut out: Vec<(Role, String)> = Vec::new();
    for s in spans {
        if s.role == Role::Plain {
            if let Some(last) = out.last_mut() {
                if last.0 == Role::Plain {
                    last.1.push_str(&s.text);
                    continue;
                }
            }
        }
        out.push((s.role, s.text.clone()));
    }
    out
}

fn chars(s: &str) -> Vec<char> {
    s.chars().collect()
}

fn p(role: Role, s: &str) -> (Role, String) {
    (role, s.to_string())
}

#[test]
fn empty_line_has_no_spans() {
    assert!(colorize_line("").is_empty());
}

#[test]
fn operator_prefix() {
    let spans = colorize_line("AND: do this");
    assert_eq!(compact(&spans), vec![p(Role::Operator, "AND: "), p(Role::Plain, "do this")]);
}

#[test]
fn operator_word_with_digits_dash_underscore() {
    assert_eq!(detect_operator(&chars("A-1_B: x")), Some(7));
    assert_eq!(detect_operator(&chars("12-3: x")), None);
    assert_eq!(detect_operator(&chars("ABC:x")), None);
    assert_eq!(detect_operator(&chars("ABC:")), None);
    assert_eq!(detect_operator(&chars("")), None);
}

#[test]
fn property_prefix() {
    let spans = colorize_line("Name: value");
    assert_eq!(compact(&spans), vec![p(Role::Property, "Name: "), p(Role::Plain, "value")]);
}

#[test]
fn property_chain() {
    assert_eq!(detect_property_chain(&chars("09.03: Silje: Opening")), Some(14));
    let spans = colorize_line("09.03: Silje: Opening");
    assert_eq!(compact(&spans), vec![p(Role::Property, "09.03: Silje: "), p(Role::Plain, "Opening")]);
}

#[test]
fn property_chain_rejections() {
    assert_eq!(detect_property_chain(&chars("Key:value")), None);
    assert_eq!(detect_property_chain(&chars(": x")), None);
    assert_eq!(detect_property_chain(&chars("a [b]: c")), None);
    assert_eq!(detect_property_chain(&chars("no colon here")), None);
    assert_eq!(detect_property_chain(&chars("End:")), Some(4));
}

#[test]
fn leading_plus_is_a_property() {
    let spans = colorize_line("+ continued");
    assert_eq!(compact(&spans), vec![p(Role::Property, "+"), p(Role::Plain, " continued")]);
}

#[test]
fn bracketed_and_quoted_spans() {
    let spans = colorize_line("[x] task <ref> {sub} (note) \"quoted\" #tag; end");
    assert_eq!(
        compact(&spans),
        vec![
            p(Role::Qualifier, "[x]"),
            p(Role::Plain, " task "),
            p(Role::Reference, "<ref>"),
            p(Role::Plain, " "),
            p(Role::Substitution, "{sub}"),
            p(Role::Plain, " "),
            p(Role::Parenthesis, "(note)"),
            p(Role::Plain, " "),
            p(Role::Quoted, "\"quoted\""),
            p(Role::Plain, " "),
            p(Role::Tag, "#tag"),
            p(Role::Qualifier, ";"),
            p(Role::Plain, " end"),
        ]
    );
}

#[test]
fn emphasis_drops_delimiters() {
    let spans = colorize_line("*bold* _under_ /ital/ a*b");
    assert_eq!(
        compact(&spans),
        vec![
            p(Role::Bold, "bold"),
            p(Role::Plain, " "),
            p(Role::Underline, "under"),
            p(Role::Plain, " "),
            p(Role::Italic, "ital"),
            p(Role::Plain, " a*b"),
        ]
    );
}

#[test]
fn double_slash_is_not_italic() {
    let spans = colorize_line("// not italic");
    assert_eq!(compact(&spans), vec![p(Role::Plain, "// not italic")]);
}

#[test]
fn nested_and_unmatched_brackets() {
    assert_eq!(compact(&colorize_line("[a [b] c]")), vec![p(Role::Qualifier, "[a [b] c]")]);
    assert_eq!(compact(&colorize_line("[open")), vec![p(Role::Plain, "[open")]);
    assert_eq!(find_matching(&chars("[a [b] c]"), 0, '[', ']'), Some(8));
    assert_eq!(find_matching(&chars("[a [b] c"), 0, '[', ']'), None);
    assert_eq!(find_matching(&chars("x]"), 0, '[', ']'), None);
    assert_eq!(find_matching(&chars("(a)"), 5, '(', ')'), None);
}

#[test]
fn unicode_tag() {
    let spans = colorize_line("#æøå-x_1 rest");
    assert_eq!(compact(&spans), vec![p(Role::Tag, "#æøå-x_1"), p(Role::Plain, " rest")]);
}

#[test]
fn hash_without_word_is_plain() {
    assert_eq!(compact(&colorize_line("# not a tag")), vec![p(Role::Plain, "# not a tag")]);
}

#[test]
fn operator_then_qualifier() {
    let spans = colorize_line("NOTE: [x] done");
    assert_eq!(
        compact(&spans),
        vec![p(Role::Operator, "NOTE: "), p(Role::Qualifier, "[x]"), p(Role::Plain, " done")]
    );
}

#[test]
fn colorizing_keeps_text_without_emphasis() {
    for line in ["AND: x [y] <z>", "Name: Value: tail", "+ more (a) \"b\" #c;d", "plain"] {
        let text: String = colorize_line(line).iter().map(|s| s.text.as_str()).collect();
        assert_eq!(text, line);
    }
}

#[test]
fn role_colors() {
    assert_eq!(role_color(Role::Operator), Some(33));
    assert_eq!(role_color(Role::Property), Some(196));
    assert_eq!(role_color(Role::Qualifier), Some(46));
    assert_eq!(role_color(Role::Reference), Some(165));
    assert_eq!(role_color(Role::Substitution), Some(226));
    assert_eq!(role_color(Role::Parenthesis), Some(51));
    assert_eq!(role_color(Role::Quoted), Some(51));
    assert_eq!(role_color(Role::Tag), Some(208));
    assert_eq!(role_color(Role::Bold), None);
    assert_eq!(role_color(Role::Plain), None);
}
