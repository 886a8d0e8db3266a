use title_format::model::{
    FormatElement, Link, StyleElement, StyleVariableHolder, TextGroup, URLElement, VariableHolder,
};
use title_format::render::{render, RenderError, Resolved, Segment, VariableValue};
use title_format::style::{Attribute, Style};

fn text(s: &str) -> FormatElement {
    FormatElement::Text(s.to_string())
}

fn var(s: &str) -> FormatElement {
    FormatElement::Variable(s.to_string())
}

fn no_values() -> Resolved {
    Resolved { variables: vec![], styles: vec![] }
}

fn plain(name: &str, value: &str) -> (String, Result<VariableValue, RenderError>) {
    (name.to_string(), Ok(VariableValue::Plain(value.to_string())))
}

fn texts(segs: &[Segment]) -> Vec<String> {
    segs.iter()
        .map(|s| match s {
            Segment::Styled { text, .. } => text.clone(),
            Segment::Link { text, .. } => text.clone(),
            Segment::Title { text } => text.clone(),
        })
        .collect()
}

fn style_of(seg: &Segment) -> &Style {
    match seg {
        Segment::Styled { style, .. } => style,
        Segment::Link { style, .. } => style,
        Segment::Title { .. } => panic!("a title has no style"),
    }
}

#[test]
fn literal_text_renders_as_one_segment() {
    let format = vec![text("hello world")];
    let failing = Resolved {
        variables: vec![(
            "x".to_string(),
            Err(RenderError { message: "boom".to_string() }),
        )],
        styles: vec![],
    };
    for res in [no_values(), failing] {
        let segs = render(&format, &res).unwrap();
        assert_eq!(segs.len(), 1);
        assert_eq!(texts(&segs), vec!["hello world".to_string()]);
        let st = style_of(&segs[0]);
        assert!(st.fg.is_none() && st.bg.is_none() && st.attributes.is_empty());
    }
}

#[test]
fn conditional_hidden_when_variable_absent() {
    let format = vec![FormatElement::Conditional(vec![text(":"), var("x")])];
    let segs = render(&format, &no_values()).unwrap();
    assert!(segs.is_empty());
}

#[test]
fn conditional_shown_when_variable_present() {
    let format = vec![FormatElement::Conditional(vec![text(":"), var("x")])];
    let res = Resolved { variables: vec![plain("x", "main")], styles: vec![] };
    let segs = render(&format, &res).unwrap();
    assert_eq!(texts(&segs).concat(), ":main");
}

#[test]
fn conditional_hidden_when_variable_empty() {
    let format = vec![text("a"), FormatElement::Conditional(vec![text(":"), var("x")])];
    let res = Resolved { variables: vec![plain("x", "")], styles: vec![] };
    let segs = render(&format, &res).unwrap();
    assert_eq!(texts(&segs).concat(), "a");
}

#[test]
fn conditional_of_text_alone_is_hidden() {
    let format = vec![FormatElement::Conditional(vec![text("only text")])];
    assert!(render(&format, &no_values()).unwrap().is_empty());
}

#[test]
fn variables_of_groups_styles_and_conditionals() {
    let format = vec![
        var("a"),
        FormatElement::TextGroup(TextGroup {
            format: vec![var("b")],
            style: vec![StyleElement::Variable("c".to_string())],
        }),
        FormatElement::Conditional(vec![var("d")]),
    ];
    let vars = format.get_variables();
    assert_eq!(vars, vec!["a", "b", "c", "d"]);
    let style_vars = format.get_style_variables();
    assert_eq!(style_vars, vec!["c"]);
}

#[test]
fn variables_are_sorted_and_unique() {
    let format = vec![
        var("zeta"),
        var("alpha"),
        FormatElement::Conditional(vec![var("zeta"), var("beta")]),
        FormatElement::Link(Link {
            format: vec![var("alpha")],
            url: vec![
                URLElement::Text("https://".to_string()),
                URLElement::Variable("host".to_string()),
            ],
        }),
    ];
    assert_eq!(format.get_variables(), vec!["alpha", "beta", "host", "zeta"]);
    assert_eq!(var("one").get_variables(), vec!["one"]);
    assert!(text("one").get_variables().is_empty());
    assert_eq!(URLElement::Variable("u".to_string()).get_variables(), vec!["u"]);
    assert!(URLElement::Text("u".to_string()).get_variables().is_empty());
    assert_eq!(StyleElement::Variable("s".to_string()).get_style_variables(), vec!["s"]);
    let styles = vec![
        StyleElement::Variable("y".to_string()),
        StyleElement::Text("bold".to_string()),
        StyleElement::Variable("x".to_string()),
    ];
    assert_eq!(styles.get_style_variables(), vec!["x", "y"]);
    let url = vec![URLElement::Variable("q".to_string()), URLElement::Variable("p".to_string())];
    assert_eq!(url.get_variables(), vec!["p", "q"]);
}

#[test]
fn extraction_twice_is_identical() {
    let format = vec![var("b"), FormatElement::Conditional(vec![var("a")])];
    assert_eq!(format.get_variables(), format.get_variables());
    assert_eq!(format.get_style_variables(), format.get_style_variables());
}

#[test]
fn rendering_twice_is_identical() {
    let format = vec![
        text("on "),
        FormatElement::TextGroup(TextGroup {
            format: vec![var("branch")],
            style: vec![StyleElement::Text("bold purple".to_string())],
        }),
    ];
    let res = Resolved { variables: vec![plain("branch", "main")], styles: vec![] };
    let first = format!("{:?}", render(&format, &res));
    let second = format!("{:?}", render(&format, &res));
    assert_eq!(first, second);
}

#[test]
fn nested_styles_combine_inner_wins() {
    let format = vec![FormatElement::TextGroup(TextGroup {
        format: vec![
            text("a"),
            FormatElement::TextGroup(TextGroup {
                format: vec![text("b")],
                style: vec![StyleElement::Text("fg:blue italic".to_string())],
            }),
        ],
        style: vec![StyleElement::Text("bold red bg:black".to_string())],
    })];
    let segs = render(&format, &no_values()).unwrap();
    assert_eq!(texts(&segs), vec!["a", "b"]);
    let outer = style_of(&segs[0]);
    assert_eq!(outer.fg.as_deref(), Some("red"));
    assert_eq!(outer.bg.as_deref(), Some("black"));
    assert_eq!(outer.attributes, vec![Attribute::Bold]);
    let inner = style_of(&segs[1]);
    assert_eq!(inner.fg.as_deref(), Some("blue"));
    assert_eq!(inner.bg.as_deref(), Some("black"));
    assert_eq!(inner.attributes, vec![Attribute::Bold, Attribute::Italic]);
}

#[test]
fn style_variables_resolve_and_absent_ones_are_skipped() {
    let format = vec![FormatElement::TextGroup(TextGroup {
        format: vec![text("x")],
        style: vec![
            StyleElement::Variable("style".to_string()),
            StyleElement::Variable("missing".to_string()),
        ],
    })];
    let res = Resolved {
        variables: vec![],
        styles: vec![("style".to_string(), "underline green".to_string())],
    };
    let segs = render(&format, &res).unwrap();
    let st = style_of(&segs[0]);
    assert_eq!(st.fg.as_deref(), Some("green"));
    assert_eq!(st.attributes, vec![Attribute::Underline]);
}

#[test]
fn none_clears_the_inherited_style() {
    let format = vec![FormatElement::TextGroup(TextGroup {
        format: vec![FormatElement::TextGroup(TextGroup {
            format: vec![text("x")],
            style: vec![StyleElement::Text("none".to_string())],
        })],
        style: vec![StyleElement::Text("bold red".to_string())],
    })];
    let segs = render(&format, &no_values()).unwrap();
    let st = style_of(&segs[0]);
    assert!(st.fg.is_none() && st.attributes.is_empty());
}

#[test]
fn error_anywhere_fails_the_render() {
    let format = vec![
        text("before "),
        var("ok"),
        FormatElement::TextGroup(TextGroup {
            format: vec![FormatElement::Conditional(vec![var("bad")])],
            style: vec![],
        }),
        text(" after"),
    ];
    let res = Resolved {
        variables: vec![
            plain("ok", "fine"),
            ("bad".to_string(), Err(RenderError { message: "module failed".to_string() })),
        ],
        styles: vec![],
    };
    match render(&format, &res) {
        Err(e) => assert_eq!(e.message, "module failed"),
        Ok(_) => panic!("expected a failure"),
    }
}

#[test]
fn first_entry_of_a_name_counts() {
    let format = vec![var("x")];
    let res = Resolved { variables: vec![plain("x", "first"), plain("x", "second")], styles: vec![] };
    assert_eq!(texts(&render(&format, &res).unwrap()), vec!["first"]);
}

#[test]
fn styled_value_is_inserted_verbatim() {
    let inner = vec![Segment::Styled {
        text: "X".to_string(),
        style: Style { fg: None, bg: None, attributes: vec![Attribute::Bold] },
    }];
    let format = vec![text("["), var("m"), text("]")];
    let res = Resolved {
        variables: vec![("m".to_string(), Ok(VariableValue::Styled(inner)))],
        styles: vec![],
    };
    let segs = render(&format, &res).unwrap();
    assert_eq!(texts(&segs), vec!["[", "X", "]"]);
    assert_eq!(style_of(&segs[1]).attributes, vec![Attribute::Bold]);
    assert!(style_of(&segs[0]).attributes.is_empty());
}

#[test]
fn link_joins_label_and_target() {
    let format = vec![FormatElement::Link(Link {
        format: vec![text("repo "), var("name")],
        url: vec![
            URLElement::Text("https://example.com/".to_string()),
            URLElement::Variable("name".to_string()),
            URLElement::Variable("absent".to_string()),
        ],
    })];
    let res = Resolved { variables: vec![plain("name", "core")], styles: vec![] };
    let segs = render(&format, &res).unwrap();
    assert_eq!(segs.len(), 1);
    match &segs[0] {
        Segment::Link { text, url, .. } => {
            assert_eq!(text, "repo core");
            assert_eq!(url, "https://example.com/core");
        }
        _ => panic!("expected a link"),
    }
}

#[test]
fn link_target_failure_fails_the_render() {
    let format = vec![FormatElement::Link(Link {
        format: vec![text("label")],
        url: vec![URLElement::Variable("u".to_string())],
    })];
    let res = Resolved {
        variables: vec![("u".to_string(), Err(RenderError { message: "no url".to_string() }))],
        styles: vec![],
    };
    assert_eq!(render(&format, &res).unwrap_err().message, "no url");
}

#[test]
fn slices_hold_variables_too() {
    let format = vec![var("b"), var("a"), var("b")];
    assert_eq!(format.as_slice().get_variables(), vec!["a", "b"]);
    let url = vec![URLElement::Variable("z".to_string()), URLElement::Text("t".to_string())];
    assert_eq!(url.as_slice().get_variables(), vec!["z"]);
}

#[test]
fn style_words_apply_in_order() {
    let mut st = Style::plain();
    st.apply_style_string("  bold\titalic fg:green bg:#123456 yellow strikethrough ");
    assert_eq!(st.fg.as_deref(), Some("yellow"));
    assert_eq!(st.bg.as_deref(), Some("#123456"));
    assert_eq!(
        st.attributes,
        vec![Attribute::Bold, Attribute::Italic, Attribute::Strikethrough]
    );
    st.apply_word("none");
    assert!(st.fg.is_none() && st.bg.is_none() && st.attributes.is_empty());
    for (word, attr) in [
        ("underline", Attribute::Underline),
        ("dimmed", Attribute::Dimmed),
        ("inverted", Attribute::Inverted),
        ("blink", Attribute::Blink),
        ("hidden", Attribute::Hidden),
    ] {
        let mut s = Style::plain();
        s.apply_word(word);
        assert_eq!(s.attributes, vec![attr]);
        assert!(s.fg.is_none());
    }
}
