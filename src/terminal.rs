//! The terminal title: a template whose variables are other modules' output,
//! rendered and stripped of style into one title segment.
use vstd::prelude::*;
use crate::model::FormatElement;
use crate::names::str_eq;
use crate::render::{
    Resolved, Segment, SegmentModel, VariableValue, joined_text, push_copies, render,
    render_elements, segment_models,
};

verus! {

/// The settings of the terminal title.
pub struct TerminalConfig {
    pub title_format: String,
    pub disabled: bool,
}

impl Default for TerminalConfig {
    fn default() -> (r: Self)
        ensures
            r.title_format@ == "$username@$hostname$localip:$directory"@,
            !r.disabled,
    {
        TerminalConfig {
            title_format: "$username@$hostname$localip:$directory".to_owned(),
            disabled: false,
        }
    }
}

/// What to do for a variable of the title that names a module.
#[derive(PartialEq, Eq, Structural, Clone, Copy, Debug)]
pub enum ModuleDispatch {
    /// A known module that is enabled: run it.
    Invoke,
    /// A known module that the configuration disables.
    Disabled,
    /// No module has this name.
    Unknown,
}

/// Whether `name` is among `names`.
pub open spec fn is_listed(names: Seq<String>, name: Seq<char>) -> bool {
    exists|i: int| 0 <= i < names.len() && names[i]@ == name
}

/// The texts of strings joined in order.
pub open spec fn joined(v: Seq<String>) -> Seq<char>
    decreases v.len(),
{
    if v.len() == 0 {
        Seq::empty()
    } else {
        joined(v.drop_last()) + v.last()@
    }
}

/// Relies on `nu_ansi_term::unstyle`: the painted strings' texts joined in
/// order, without escape sequences.
#[verifier::external_body]
fn unstyled(texts: &Vec<String>) -> (r: String)
    ensures
        r@ == joined(texts@),
{
    let painted: Vec<nu_ansi_term::AnsiString> = texts.iter().map(
        |t| nu_ansi_term::Style::new().paint(t.as_str()),
    ).collect();
    nu_ansi_term::unstyle(&nu_ansi_term::AnsiStrings(&painted))
}

/// Decides what a variable of the title that names `module` stands for: a
/// module outside `all_modules` is unknown; a known one runs unless the
/// configuration disables it.
pub fn handle_module(module: &str, all_modules: &Vec<String>, disabled: bool) -> (r: ModuleDispatch)
    ensures
        r == (if !is_listed(all_modules@, module@) {
            ModuleDispatch::Unknown
        } else if disabled {
            ModuleDispatch::Disabled
        } else {
            ModuleDispatch::Invoke
        }),
{
    let mut i: usize = 0;
    while i < all_modules.len()
        invariant
            i <= all_modules@.len(),
            forall|k: int| 0 <= k < i ==> all_modules@[k]@ != module@,
        decreases all_modules@.len() - i,
    {
        if str_eq(all_modules[i].as_str(), module) {
            return if disabled {
                ModuleDispatch::Disabled
            } else {
                ModuleDispatch::Invoke
            };
        }
        i = i + 1;
    }
    ModuleDispatch::Unknown
}

/// The segments of several outputs, in order.
pub open spec fn flattened(v: Seq<Vec<Segment>>) -> Seq<SegmentModel>
    decreases v.len(),
{
    if v.len() == 0 {
        Seq::empty()
    } else {
        flattened(v.drop_last()) + segment_models(v.last()@)
    }
}

/// The value of a title variable, from what was decided for its module and
/// what the module produced: the produced segments, in order, for a module
/// that ran; absent otherwise.
pub fn module_value(dispatch: ModuleDispatch, outputs: &Vec<Vec<Segment>>) -> (r: Option<
    VariableValue,
>)
    ensures
        dispatch == ModuleDispatch::Invoke ==> (r matches Some(VariableValue::Styled(segs))
            && segment_models(segs@) == flattened(outputs@)),
        dispatch != ModuleDispatch::Invoke ==> r is None,
{
    if dispatch != ModuleDispatch::Invoke {
        return None;
    }
    let mut segs: Vec<Segment> = Vec::new();
    assert(segment_models(segs@) =~= flattened(outputs@.subrange(0, 0)));
    let mut i: usize = 0;
    while i < outputs.len()
        invariant
            i <= outputs@.len(),
            segment_models(segs@) == flattened(outputs@.subrange(0, i as int)),
        decreases outputs@.len() - i,
    {
        assert(outputs@.subrange(0, i + 1).drop_last() =~= outputs@.subrange(0, i as int));
        push_copies(&outputs[i], &mut segs);
        i = i + 1;
    }
    assert(outputs@.subrange(0, i as int) =~= outputs@);
    Some(VariableValue::Styled(segs))
}

/// One title segment holding the text of `segments`, without style.
pub fn title_segment(segments: &Vec<Segment>) -> (r: Segment)
    ensures
        r@ == (SegmentModel::Title { text: joined_text(segment_models(segments@)) }),
{
    let mut texts: Vec<String> = Vec::new();
    let mut i: usize = 0;
    while i < segments.len()
        invariant
            i <= segments@.len(),
            joined(texts@) == joined_text(segment_models(segments@.subrange(0, i as int))),
        decreases segments@.len() - i,
    {
        assert(segment_models(segments@.subrange(0, i + 1)).drop_last() =~= segment_models(
            segments@.subrange(0, i as int),
        ));
        let t = match &segments[i] {
            Segment::Styled { text, .. } => text.clone(),
            Segment::Link { text, .. } => text.clone(),
            Segment::Title { text } => text.clone(),
        };
        assert(texts@.push(t).drop_last() =~= texts@);
        texts.push(t);
        i = i + 1;
    }
    assert(segments@.subrange(0, i as int) =~= segments@);
    Segment::Title { text: unstyled(&texts) }
}

/// The terminal title: the template rendered with the resolved values and
/// stripped of style into one title segment; `None` where rendering fails.
pub fn title(format: &Vec<FormatElement>, res: &Resolved) -> (r: Option<Segment>)
    ensures
        match render_elements(format@, *res, crate::style::plain_style()) {
            Ok((segs, _)) => r matches Some(t) && t@ == (SegmentModel::Title {
                text: joined_text(segs),
            }),
            Err(_) => r is None,
        },
{
    match render(format, res) {
        Ok(segments) => Some(title_segment(&segments)),
        Err(_) => None,
    }
}

} // verus!
