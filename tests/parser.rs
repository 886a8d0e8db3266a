use title_format::style::Attribute;
use title_format::terminal::title;
use title_format::model::{FormatElement, StyleElement, StyleVariableHolder, URLElement, VariableHolder};
use title_format::parser::{parse_format, ParseError, ParseErrorKind};
use title_format::render::{render, Resolved, Segment, VariableValue};

fn joined(segs: &[Segment]) -> String {
    segs.iter()
        .map(|s| match s {
            Segment::Styled { text, .. } => text.clone(),
            Segment::Link { text, .. } => text.clone(),
            Segment::Title { text } => text.clone(),
        })
        .collect()
}

#[test]
fn parse_branch_format() {
    let t = parse_format("on [$symbol$branch(:$remote_branch)]($style) ").unwrap();
    assert_eq!(t.len(), 3);
    assert!(matches!(&t[0], FormatElement::Text(s) if s == "on "));
    match &t[1] {
        FormatElement::TextGroup(g) => {
            assert_eq!(g.format.len(), 3);
            assert!(matches!(&g.format[2], FormatElement::Conditional(c) if c.len() == 2));
            assert!(matches!(&g.style[0], StyleElement::Variable(v) if v == "style"));
        }
        _ => panic!("expected a styled group"),
    }
    assert!(matches!(&t[2], FormatElement::Text(s) if s == " "));
    assert_eq!(t.get_variables(), vec!["branch", "remote_branch", "style", "symbol"]);
    assert_eq!(t.get_style_variables(), vec!["style"]);
}

#[test]
fn parse_and_render_conditional() {
    let t = parse_format("(:$x)").unwrap();
    let absent = Resolved { variables: vec![], styles: vec![] };
    assert_eq!(joined(&render(&t, &absent).unwrap()), "");
    let present = Resolved {
        variables: vec![("x".to_string(), Ok(VariableValue::Plain("main".to_string())))],
        styles: vec![],
    };
    assert_eq!(joined(&render(&t, &present).unwrap()), ":main");
}

#[test]
fn parse_escapes() {
    let t = parse_format("cost \\$5 \\(\\[x\\]\\) \\\\").unwrap();
    assert_eq!(t.len(), 1);
    assert!(matches!(&t[0], FormatElement::Text(s) if s == "cost $5 ([x]) \\"));
}

#[test]
fn parse_literal_style() {
    let t = parse_format("[x](bold fg:red)").unwrap();
    match &t[0] {
        FormatElement::TextGroup(g) => {
            assert!(matches!(&g.style[0], StyleElement::Text(s) if s == "bold fg:red"));
        }
        _ => panic!("expected a styled group"),
    }
}

#[test]
fn parse_link() {
    let t = parse_format("[home $user](link:https://$host/x)").unwrap();
    match &t[0] {
        FormatElement::Link(l) => {
            assert_eq!(l.format.len(), 2);
            assert_eq!(l.url.len(), 3);
            assert!(matches!(&l.url[1], URLElement::Variable(v) if v == "host"));
        }
        _ => panic!("expected a link"),
    }
    assert_eq!(t.get_variables(), vec!["host", "user"]);
}

#[test]
fn parse_errors() {
    let err = |s: &str| parse_format(s).err().unwrap();
    assert_eq!(err("$"), ParseError { kind: ParseErrorKind::DanglingSigil, position: 0 });
    assert_eq!(err("a $ b").kind, ParseErrorKind::DanglingSigil);
    assert_eq!(err("\\a"), ParseError { kind: ParseErrorKind::UnknownEscape, position: 0 });
    assert_eq!(err("(abc").kind, ParseErrorKind::Unbalanced);
    assert_eq!(err("abc)"), ParseError { kind: ParseErrorKind::Unbalanced, position: 3 });
    assert_eq!(err("[abc]"), ParseError { kind: ParseErrorKind::MissingStyle, position: 4 });
    assert_eq!(err("[abc](bold").kind, ParseErrorKind::Unbalanced);
    assert_eq!(err("[abc)(bold)").kind, ParseErrorKind::Unbalanced);
}

#[test]
fn parse_plain_text_is_one_element() {
    let t = parse_format("just words: 100%").unwrap();
    assert_eq!(t.len(), 1);
    assert!(parse_format("").unwrap().is_empty());
}

#[test]
fn nested_styles_parse_render_and_title() {
    let t = parse_format("[[X](italic red)](bold blue)").unwrap();
    let res = Resolved { variables: vec![], styles: vec![] };
    let segs = render(&t, &res).unwrap();
    assert_eq!(segs.len(), 1);
    match &segs[0] {
        Segment::Styled { text, style } => {
            assert_eq!(text, "X");
            assert_eq!(style.fg.as_deref(), Some("red"));
            assert!(style.bg.is_none());
            assert_eq!(style.attributes, vec![Attribute::Bold, Attribute::Italic]);
        }
        _ => panic!("expected a styled segment"),
    }
    match title(&t, &res) {
        Some(Segment::Title { text }) => assert_eq!(text, "X"),
        _ => panic!("expected a title"),
    }
}

#[test]
fn malformed_templates_fail() {
    for s in ["$", "[abc", "(abc", "a$", "[a](b", "]"] {
        assert!(parse_format(s).is_err(), "{}", s);
    }
}

#[test]
fn well_formed_templates_parse() {
    for s in [
        "$a$b",
        "(:$x)",
        "[$a](link:https://$h/x)",
        "[x]()",
        "[x]($s bold)",
        "a\\$b$c_d e",
        "([a](b)(c))",
    ] {
        assert!(parse_format(s).is_ok(), "{}", s);
    }
    let t = parse_format("ab").unwrap();
    assert_eq!(t.len(), 1);
    let e = parse_format("[a](bold").err().unwrap();
    assert_eq!(e, ParseError { kind: ParseErrorKind::Unbalanced, position: 0 });
}
