use title_format::model::FormatElement;
use title_format::parser::parse_format;
use title_format::render::{Resolved, Segment, VariableValue};
use title_format::style::{Attribute, Style};
use title_format::terminal::{
    handle_module, module_value, title, title_segment, ModuleDispatch, TerminalConfig,
};

fn modules() -> Vec<String> {
    vec!["a".to_string(), "b".to_string()]
}

#[test]
fn config_terminal() {
    // The title is a title segment: nothing of it shows as styled prompt text.
    let format = vec![FormatElement::Text("sample".to_string())];
    let res = Resolved { variables: vec![], styles: vec![] };
    let rendered = title(&format, &res);
    match &rendered {
        Some(Segment::Title { text }) => assert_eq!(text, "sample"),
        other => panic!("expected a title, got {:?}", other),
    }
    let actual = rendered.and_then(|seg| match seg {
        Segment::Styled { text, .. } => Some(text),
        _ => None,
    });
    let expected: Option<String> = None;
    assert_eq!(expected, actual);
}

#[test]
fn handle_module_decides() {
    assert_eq!(handle_module("a", &modules(), false), ModuleDispatch::Invoke);
    assert_eq!(handle_module("a", &modules(), true), ModuleDispatch::Disabled);
    assert_eq!(handle_module("zzz", &modules(), false), ModuleDispatch::Unknown);
}

#[test]
fn title_strips_style_and_skips_disabled_module() {
    let format = parse_format("$a$b").unwrap();
    let bold = Style { fg: None, bg: None, attributes: vec![Attribute::Bold] };
    let outputs_b = vec![vec![Segment::Styled { text: "X".to_string(), style: bold }]];
    let mut variables = Vec::new();
    for (name, disabled, outputs) in [("a", true, vec![]), ("b", false, outputs_b)] {
        let dispatch = handle_module(name, &modules(), disabled);
        if let Some(value) = module_value(dispatch, &outputs) {
            variables.push((name.to_string(), Ok(value)));
        }
    }
    assert_eq!(variables.len(), 1);
    let res = Resolved { variables, styles: vec![] };
    match title(&format, &res) {
        Some(Segment::Title { text }) => assert_eq!(text, "X"),
        other => panic!("expected a title, got {:?}", other),
    }
}

#[test]
fn title_of_failed_render_is_none() {
    let format = vec![FormatElement::Variable("a".to_string())];
    let res = Resolved {
        variables: vec![(
            "a".to_string(),
            Err(title_format::render::RenderError { message: "x".to_string() }),
        )],
        styles: vec![],
    };
    assert!(title(&format, &res).is_none());
}

#[test]
fn module_value_flattens_outputs() {
    let seg = |t: &str| Segment::Styled { text: t.to_string(), style: Style::plain() };
    let outputs = vec![vec![seg("1"), seg("2")], vec![], vec![seg("3")]];
    match module_value(ModuleDispatch::Invoke, &outputs) {
        Some(VariableValue::Styled(segs)) => assert_eq!(segs.len(), 3),
        _ => panic!("expected segments"),
    }
    assert!(module_value(ModuleDispatch::Disabled, &outputs).is_none());
    assert!(module_value(ModuleDispatch::Unknown, &outputs).is_none());
}

#[test]
fn title_segment_joins_texts() {
    let segs = vec![
        Segment::Styled { text: "user".to_string(), style: Style::plain() },
        Segment::Link {
            text: "@host".to_string(),
            style: Style::plain(),
            url: "https://h".to_string(),
        },
    ];
    match title_segment(&segs) {
        Segment::Title { text } => assert_eq!(text, "user@host"),
        _ => panic!("expected a title"),
    }
}

#[test]
fn terminal_default_format() {
    let config = TerminalConfig::default();
    assert_eq!(config.title_format, "$username@$hostname$localip:$directory");
    assert!(!config.disabled);
}
