//! Rendering a format template against resolved variable and style values.
use vstd::prelude::*;
use vstd::string::StringExecFns;
use crate::model::{FormatElement, StyleElement, URLElement};
use crate::style::{Style, StyleModel};

verus! {

/// A piece of output: styled text, a hyperlink, or plain title text.
#[derive(Debug)]
pub enum Segment {
    Styled { text: String, style: Style },
    Link { text: String, style: Style, url: String },
    Title { text: String },
}

/// What a segment holds, as values.
pub enum SegmentModel {
    Styled { text: Seq<char>, style: StyleModel },
    Link { text: Seq<char>, style: StyleModel, url: Seq<char> },
    Title { text: Seq<char> },
}

impl SegmentModel {
    pub open spec fn text(self) -> Seq<char> {
        match self {
            SegmentModel::Styled { text, .. } => text,
            SegmentModel::Link { text, .. } => text,
            SegmentModel::Title { text } => text,
        }
    }
}

impl View for Segment {
    type V = SegmentModel;

    open spec fn view(&self) -> SegmentModel {
        match self {
            Segment::Styled { text, style } => SegmentModel::Styled { text: text@, style: style@ },
            Segment::Link { text, style, url } => SegmentModel::Link {
                text: text@,
                style: style@,
                url: url@,
            },
            Segment::Title { text } => SegmentModel::Title { text: text@ },
        }
    }
}

/// The models of a sequence of segments.
pub open spec fn segment_models(v: Seq<Segment>) -> Seq<SegmentModel> {
    v.map_values(|s: Segment| s@)
}

/// The text of a sequence of segments, joined in order, without style.
pub open spec fn joined_text(v: Seq<SegmentModel>) -> Seq<char>
    decreases v.len(),
{
    if v.len() == 0 {
        Seq::empty()
    } else {
        joined_text(v.drop_last()) + v.last().text()
    }
}

/// The value of a variable: text, or segments that were rendered before.
#[derive(Debug)]
pub enum VariableValue {
    Plain(String),
    Styled(Vec<Segment>),
}

/// A failure that a resolver reported while producing a value.
#[derive(Debug)]
pub struct RenderError {
    pub message: String,
}

/// The values that variables and style variables resolve to. A name that no
/// entry holds is absent; where a name is held twice, the first entry counts.
pub struct Resolved {
    pub variables: Vec<(String, Result<VariableValue, RenderError>)>,
    pub styles: Vec<(String, String)>,
}

/// The index of the first entry of `t` whose name is `name`.
pub open spec fn first_entry<T>(t: Seq<(String, T)>, name: Seq<char>, i: int) -> Option<int>
    decreases t.len() - i,
{
    if i < 0 || i >= t.len() {
        None
    } else if t[i].0@ == name {
        Some(i)
    } else {
        first_entry(t, name, i + 1)
    }
}

/// A rendered sequence with whether some variable in it resolved to a
/// non-empty value, or the message of the first failure.
pub type Rendered = Result<(Seq<SegmentModel>, bool), Seq<char>>;

/// The text that a resolved value stands for in a link target.
pub open spec fn value_text(v: VariableValue) -> Seq<char> {
    match v {
        VariableValue::Plain(p) => p@,
        VariableValue::Styled(segs) => joined_text(segment_models(segs@)),
    }
}

/// A style sequence applied to an inherited style: literal parts as style
/// strings, variables through their resolved style string, absent ones
/// skipped.
pub open spec fn apply_style_elements(st: StyleModel, s: Seq<StyleElement>, res: Resolved) -> StyleModel
    decreases s.len(),
{
    if s.len() == 0 {
        st
    } else {
        let prev = apply_style_elements(st, s.drop_last(), res);
        match s.last() {
            StyleElement::Text(t) => crate::style::apply_style_string(prev, t@),
            StyleElement::Variable(v) => match first_entry(res.styles@, v@, 0) {
                Some(k) => crate::style::apply_style_string(prev, res.styles@[k].1@),
                None => prev,
            },
        }
    }
}

/// A link target: literal parts and the text of resolved variables, joined.
pub open spec fn url_text(s: Seq<URLElement>, res: Resolved) -> Result<Seq<char>, Seq<char>>
    decreases s.len(),
{
    if s.len() == 0 {
        Ok(Seq::empty())
    } else {
        match url_text(s.drop_last(), res) {
            Err(e) => Err(e),
            Ok(prev) => match s.last() {
                URLElement::Text(t) => Ok(prev + t@),
                URLElement::Variable(v) => match first_entry(res.variables@, v@, 0) {
                    None => Ok(prev),
                    Some(k) => match res.variables@[k].1 {
                        Ok(val) => Ok(prev + value_text(val)),
                        Err(e) => Err(e.message@),
                    },
                },
            },
        }
    }
}

/// One element rendered under an inherited style. Text gives one segment;
/// a variable gives nothing where absent, one segment for text, and its
/// segments as they are for rendered segments; a conditional group is
/// rendered first and kept only where some variable in it resolved to a
/// non-empty value (literal text alone does not keep it); a styled group
/// renders its content with its style applied over the inherited one; a
/// link gives one segment of its content's joined text and its target.
pub open spec fn render_element(e: FormatElement, res: Resolved, st: StyleModel) -> Rendered
    decreases e,
{
    match e {
        FormatElement::Text(t) => Ok((seq![SegmentModel::Styled { text: t@, style: st }], false)),
        FormatElement::Variable(v) => match first_entry(res.variables@, v@, 0) {
            None => Ok((Seq::empty(), false)),
            Some(k) => match res.variables@[k].1 {
                Ok(VariableValue::Plain(p)) => Ok(
                    (seq![SegmentModel::Styled { text: p@, style: st }], p@.len() > 0),
                ),
                Ok(VariableValue::Styled(segs)) => Ok(
                    (segment_models(segs@), joined_text(segment_models(segs@)).len() > 0),
                ),
                Err(e) => Err(e.message@),
            },
        },
        FormatElement::Conditional(f) => match render_elements(f@, res, st) {
            Err(e) => Err(e),
            Ok((segs, shown)) => if shown {
                Ok((segs, true))
            } else {
                Ok((Seq::empty(), false))
            },
        },
        FormatElement::TextGroup(g) => render_elements(
            g.format@,
            res,
            apply_style_elements(st, g.style@, res),
        ),
        FormatElement::Link(l) => match render_elements(l.format@, res, st) {
            Err(e) => Err(e),
            Ok((segs, shown)) => match url_text(l.url@, res) {
                Err(e) => Err(e),
                Ok(u) => Ok(
                    (
                        seq![SegmentModel::Link { text: joined_text(segs), style: st, url: u }],
                        shown,
                    ),
                ),
            },
        },
    }
}

/// A sequence of elements rendered in order under an inherited style; the
/// first failure ends it.
pub open spec fn render_elements(s: Seq<FormatElement>, res: Resolved, st: StyleModel) -> Rendered
    decreases s,
{
    if s.len() == 0 {
        Ok((Seq::empty(), false))
    } else {
        match render_elements(s.drop_last(), res, st) {
            Err(e) => Err(e),
            Ok((a, fa)) => match render_element(s.last(), res, st) {
                Err(e) => Err(e),
                Ok((b, fb)) => Ok((a + b, fa || fb)),
            },
        }
    }
}

proof fn lemma_models_concat(a: Seq<Segment>, b: Seq<Segment>)
    ensures
        segment_models(a + b) == segment_models(a) + segment_models(b),
{
    assert(segment_models(a + b) =~= segment_models(a) + segment_models(b));
}

proof fn lemma_models_push(a: Seq<Segment>, x: Segment)
    ensures
        segment_models(a.push(x)) == segment_models(a).push(x@),
{
    assert(segment_models(a.push(x)) =~= segment_models(a).push(x@));
}

/// A copy of a segment.
pub fn copy_segment(s: &Segment) -> (r: Segment)
    ensures
        r@ == s@,
{
    match s {
        Segment::Styled { text, style } => Segment::Styled {
            text: text.clone(),
            style: style.duplicate(),
        },
        Segment::Link { text, style, url } => Segment::Link {
            text: text.clone(),
            style: style.duplicate(),
            url: url.clone(),
        },
        Segment::Title { text } => Segment::Title { text: text.clone() },
    }
}

/// Appends copies of segments to `out`.
pub(crate) fn push_copies(v: &Vec<Segment>, out: &mut Vec<Segment>)
    ensures
        segment_models(final(out)@) == segment_models(old(out)@) + segment_models(v@),
{
    let ghost start = out@;
    let mut i: usize = 0;
    while i < v.len()
        invariant
            i <= v@.len(),
            segment_models(out@) == segment_models(start) + segment_models(v@.subrange(0, i as int)),
        decreases v@.len() - i,
    {
        let c = copy_segment(&v[i]);
        proof {
            lemma_models_push(out@, c);
            lemma_models_push(v@.subrange(0, i as int), v@[i as int]);
            assert(v@.subrange(0, i + 1) =~= v@.subrange(0, i as int).push(v@[i as int]));
        }
        out.push(c);
        i = i + 1;
    }
    assert(v@.subrange(0, i as int) =~= v@);
}

/// The text of segments joined in order, without their styles.
pub fn segments_text(v: &Vec<Segment>) -> (r: String)
    ensures
        r@ == joined_text(segment_models(v@)),
{
    let mut r = String::new();
    let mut i: usize = 0;
    while i < v.len()
        invariant
            i <= v@.len(),
            r@ == joined_text(segment_models(v@.subrange(0, i as int))),
        decreases v@.len() - i,
    {
        proof {
            assert(segment_models(v@.subrange(0, i + 1)).drop_last() =~= segment_models(
                v@.subrange(0, i as int),
            ));
        }
        match &v[i] {
            Segment::Styled { text, .. } => r.append(text.as_str()),
            Segment::Link { text, .. } => r.append(text.as_str()),
            Segment::Title { text } => r.append(text.as_str()),
        }
        i = i + 1;
    }
    assert(v@.subrange(0, i as int) =~= v@);
    r
}

/// The index of the first entry named `name`.
fn find_entry<T>(t: &Vec<(String, T)>, name: &str) -> (r: Option<usize>)
    ensures
        match r {
            Some(k) => first_entry(t@, name@, 0) == Some(k as int),
            None => first_entry(t@, name@, 0) is None,
        },
        r matches Some(k) ==> k < t@.len(),
{
    let mut i: usize = 0;
    while i < t.len()
        invariant
            i <= t@.len(),
            first_entry(t@, name@, 0) == first_entry(t@, name@, i as int),
        decreases t@.len() - i,
    {
        if crate::names::str_eq(t[i].0.as_str(), name) {
            return Some(i);
        }
        i = i + 1;
    }
    None
}

fn copy_error(e: &RenderError) -> (r: RenderError)
    ensures
        r.message@ == e.message@,
{
    RenderError { message: e.message.clone() }
}

/// Applies a style sequence to a style.
fn apply_styles(st: &mut Style, s: &Vec<StyleElement>, res: &Resolved)
    ensures
        final(st)@ == apply_style_elements(old(st)@, s@, *res),
{
    let ghost start = st@;
    let mut i: usize = 0;
    while i < s.len()
        invariant
            i <= s@.len(),
            st@ == apply_style_elements(start, s@.subrange(0, i as int), *res),
        decreases s@.len() - i,
    {
        assert(s@.subrange(0, i + 1).drop_last() =~= s@.subrange(0, i as int));
        match &s[i] {
            StyleElement::Text(t) => st.apply_style_string(t.as_str()),
            StyleElement::Variable(v) => match find_entry(&res.styles, v.as_str()) {
                Some(k) => st.apply_style_string(res.styles[k].1.as_str()),
                None => {},
            },
        }
        i = i + 1;
    }
    assert(s@.subrange(0, i as int) =~= s@);
}

/// The target of a link.
fn build_url(s: &Vec<URLElement>, res: &Resolved) -> (r: Result<String, RenderError>)
    ensures
        match url_text(s@, *res) {
            Ok(u) => r is Ok && r->Ok_0@ == u,
            Err(m) => r is Err && r->Err_0.message@ == m,
        },
{
    let mut u = String::new();
    let mut i: usize = 0;
    while i < s.len()
        invariant
            i <= s@.len(),
            url_text(s@.subrange(0, i as int), *res) == Ok::<Seq<char>, Seq<char>>(u@),
        decreases s@.len() - i,
    {
        assert(s@.subrange(0, i + 1).drop_last() =~= s@.subrange(0, i as int));
        match &s[i] {
            URLElement::Text(t) => u.append(t.as_str()),
            URLElement::Variable(v) => match find_entry(&res.variables, v.as_str()) {
                Some(k) => match &res.variables[k].1 {
                    Ok(VariableValue::Plain(p)) => u.append(p.as_str()),
                    Ok(VariableValue::Styled(segs)) => {
                        let t = segments_text(segs);
                        u.append(t.as_str());
                    },
                    Err(e) => {
                        proof {
                            lemma_url_error_stays(s@, *res, i as int);
                        }
                        return Err(copy_error(e));
                    },
                },
                None => {},
            },
        }
        i = i + 1;
    }
    assert(s@.subrange(0, i as int) =~= s@);
    Ok(u)
}

/// A failure in a prefix of a link target is the failure of the whole.
proof fn lemma_url_error_stays(s: Seq<URLElement>, res: Resolved, i: int)
    requires
        0 <= i < s.len(),
        url_text(s.subrange(0, i + 1), res) is Err,
    ensures
        url_text(s, res) == url_text(s.subrange(0, i + 1), res),
    decreases s.len() - i,
{
    if i + 1 < s.len() {
        assert(s.subrange(0, i + 2).drop_last() =~= s.subrange(0, i + 1));
        lemma_url_error_stays(s, res, i + 1);
    } else {
        assert(s.subrange(0, i + 1) =~= s);
    }
}

/// A failure in a prefix of an element sequence is the failure of the whole.
proof fn lemma_render_error_stays(s: Seq<FormatElement>, res: Resolved, st: StyleModel, i: int)
    requires
        0 <= i < s.len(),
        render_elements(s.subrange(0, i + 1), res, st) is Err,
    ensures
        render_elements(s, res, st) == render_elements(s.subrange(0, i + 1), res, st),
    decreases s.len() - i,
{
    if i + 1 < s.len() {
        assert(s.subrange(0, i + 2).drop_last() =~= s.subrange(0, i + 1));
        lemma_render_error_stays(s, res, st, i + 1);
    } else {
        assert(s.subrange(0, i + 1) =~= s);
    }
}

/// Renders one element under `st`, appending its segments to `out`; returns
/// whether some variable in it resolved to a non-empty value.
fn render_one(e: &FormatElement, res: &Resolved, st: &Style, out: &mut Vec<Segment>) -> (r: Result<
    bool,
    RenderError,
>)
    ensures
        match render_element(*e, *res, st@) {
            Ok((segs, shown)) => r == Ok::<bool, RenderError>(shown) && segment_models(final(out)@)
                == segment_models(old(out)@) + segs,
            Err(m) => r is Err && r->Err_0.message@ == m,
        },
    decreases e,
{
    let ghost start = out@;
    match e {
        FormatElement::Text(t) => {
            let seg = Segment::Styled { text: t.clone(), style: st.duplicate() };
            proof {
                lemma_models_push(out@, seg);
            }
            out.push(seg);
            Ok(false)
        },
        FormatElement::Variable(v) => match find_entry(&res.variables, v.as_str()) {
            None => {
                assert(segment_models(out@) =~= segment_models(start) + Seq::empty());
                Ok(false)
            },
            Some(k) => match &res.variables[k].1 {
                Ok(VariableValue::Plain(p)) => {
                    let seg = Segment::Styled { text: p.clone(), style: st.duplicate() };
                    proof {
                        lemma_models_push(out@, seg);
                    }
                    out.push(seg);
                    Ok(p.unicode_len() > 0)
                },
                Ok(VariableValue::Styled(segs)) => {
                    push_copies(segs, out);
                    let t = segments_text(segs);
                    Ok(t.unicode_len() > 0)
                },
                Err(err) => Err(copy_error(err)),
            },
        },
        FormatElement::Conditional(f) => {
            let mut inner: Vec<Segment> = Vec::new();
            let shown = render_all(f, res, st, &mut inner)?;
            assert(segment_models(inner@) =~= Seq::<SegmentModel>::empty() + segment_models(
                inner@,
            ));
            if shown {
                proof {
                    lemma_models_concat(out@, inner@);
                }
                out.append(&mut inner);
                Ok(true)
            } else {
                assert(segment_models(out@) =~= segment_models(start) + Seq::empty());
                Ok(false)
            }
        },
        FormatElement::TextGroup(g) => {
            let mut group_style = st.duplicate();
            apply_styles(&mut group_style, &g.style, res);
            render_all(&g.format, res, &group_style, out)
        },
        FormatElement::Link(l) => {
            let mut inner: Vec<Segment> = Vec::new();
            let shown = render_all(&l.format, res, st, &mut inner)?;
            assert(segment_models(inner@) =~= Seq::<SegmentModel>::empty() + segment_models(
                inner@,
            ));
            let url = build_url(&l.url, res)?;
            let text = segments_text(&inner);
            let seg = Segment::Link { text, style: st.duplicate(), url };
            proof {
                lemma_models_push(out@, seg);
            }
            out.push(seg);
            Ok(shown)
        },
    }
}

/// Renders a sequence of elements in order under `st`, appending to `out`;
/// returns whether some variable in it resolved to a non-empty value.
fn render_all(s: &Vec<FormatElement>, res: &Resolved, st: &Style, out: &mut Vec<Segment>) -> (r:
    Result<bool, RenderError>)
    ensures
        match render_elements(s@, *res, st@) {
            Ok((segs, shown)) => r == Ok::<bool, RenderError>(shown) && segment_models(final(out)@)
                == segment_models(old(out)@) + segs,
            Err(m) => r is Err && r->Err_0.message@ == m,
        },
    decreases s,
{
    let ghost start = out@;
    let ghost mut acc: Seq<SegmentModel> = Seq::empty();
    let mut shown = false;
    let mut i: usize = 0;
    assert(s@.subrange(0, 0) =~= Seq::<FormatElement>::empty());
    assert(segment_models(out@) =~= segment_models(start) + acc);
    while i < s.len()
        invariant
            i <= s@.len(),
            render_elements(s@.subrange(0, i as int), *res, st@) == Ok::<
                (Seq<SegmentModel>, bool),
                Seq<char>,
            >((acc, shown)),
            segment_models(out@) == segment_models(start) + acc,
        decreases s@.len() - i,
    {
        assert(s@.subrange(0, i + 1).drop_last() =~= s@.subrange(0, i as int));
        proof {
            vstd::std_specs::vec::axiom_vec_index_decreases(*s, i as int);
        }
        match render_one(&s[i], res, st, out) {
            Ok(f) => {
                proof {
                    let segs = render_element(s@[i as int], *res, st@)->Ok_0.0;
                    assert(segment_models(out@) =~= segment_models(start) + (acc + segs));
                    acc = acc + segs;
                }
                shown = shown || f;
            },
            Err(err) => {
                proof {
                    lemma_render_error_stays(s@, *res, st@, i as int);
                }
                return Err(err);
            },
        }
        i = i + 1;
    }
    assert(s@.subrange(0, i as int) =~= s@);
    Ok(shown)
}

/// Renders a template: each element in order, under no style, with the
/// resolved values; fails with the first failure that a resolver reported.
pub fn render(format: &Vec<FormatElement>, res: &Resolved) -> (r: Result<Vec<Segment>, RenderError>)
    ensures
        render_outcome(r) == render_result(format@, *res),
{
    let mut out: Vec<Segment> = Vec::new();
    let st = Style::plain();
    let _ = render_all(format, res, &st, &mut out)?;
    assert(segment_models(out@) =~= Seq::<SegmentModel>::empty() + segment_models(out@));
    Ok(out)
}

/// Whether every element is literal text.
pub open spec fn all_text(s: Seq<FormatElement>) -> bool {
    forall|i: int| 0 <= i < s.len() ==> #[trigger] s[i] is Text
}

/// A template of literal text alone renders, whatever the resolved values,
/// to one segment per element holding its text in the inherited style, and
/// reports no non-empty variable; a single text renders to exactly one.
pub proof fn lemma_text_renders_verbatim(s: Seq<FormatElement>, res: Resolved, st: StyleModel)
    requires
        all_text(s),
    ensures
        render_elements(s, res, st) matches Ok((segs, shown)) && !shown && segs.len() == s.len()
            && forall|i: int|
            0 <= i < s.len() ==> #[trigger] segs[i] == (SegmentModel::Styled {
                text: s[i]->Text_0@,
                style: st,
            }),
    decreases s.len(),
{
    if s.len() > 0 {
        assert(all_text(s.drop_last())) by {
            assert forall|i: int| 0 <= i < s.drop_last().len() implies #[trigger] s.drop_last()[i] is Text by {
                assert(s.drop_last()[i] == s[i]);
            }
        }
        lemma_text_renders_verbatim(s.drop_last(), res, st);
        assert(s[s.len() - 1] is Text);
        let (a, fa) = render_elements(s.drop_last(), res, st)->Ok_0;
        let b = seq![SegmentModel::Styled { text: s.last()->Text_0@, style: st }];
        assert(render_element(s.last(), res, st) == Ok::<(Seq<SegmentModel>, bool), Seq<char>>(
            (b, false),
        ));
        assert(render_elements(s, res, st) == Ok::<(Seq<SegmentModel>, bool), Seq<char>>(
            (a + b, fa || false),
        ));
        let segs = a + b;
        assert forall|i: int| 0 <= i < s.len() implies #[trigger] segs[i] == (SegmentModel::Styled {
            text: s[i]->Text_0@,
            style: st,
        }) by {
            if i < s.len() - 1 {
                assert(s.drop_last()[i] == s[i]);
                assert(segs[i] == a[i]);
            }
        }
    }
}

/// Whether `s` holds only literal text and variables named `x`.
pub open spec fn text_and_variable(s: Seq<FormatElement>, x: Seq<char>) -> bool {
    forall|i: int|
        0 <= i < s.len() ==> (#[trigger] s[i] is Text || (s[i] matches FormatElement::Variable(
            v,
        ) && v@ == x))
}

/// The segments of a sequence of text and variables `x`, where `x` stands
/// for the text `p`.
pub open spec fn filled(s: Seq<FormatElement>, p: Seq<char>, st: StyleModel) -> Seq<SegmentModel>
    decreases s.len(),
{
    if s.len() == 0 {
        Seq::empty()
    } else {
        filled(s.drop_last(), p, st) + seq![
            SegmentModel::Styled {
                text: match s.last() {
                    FormatElement::Text(t) => t@,
                    _ => p,
                },
                style: st,
            },
        ]
    }
}

pub proof fn lemma_first_entry_bounds<T>(t: Seq<(String, T)>, name: Seq<char>, i: int)
    ensures
        first_entry(t, name, i) matches Some(k) ==> 0 <= i <= k < t.len() && t[k].0@ == name,
    decreases t.len() - i,
{
    if 0 <= i < t.len() && t[i].0@ != name {
        lemma_first_entry_bounds(t, name, i + 1);
    }
}

/// Whether some element is a variable.
pub open spec fn has_variable(s: Seq<FormatElement>) -> bool {
    exists|i: int| 0 <= i < s.len() && #[trigger] s[i] is Variable
}

proof fn lemma_has_variable_last(s: Seq<FormatElement>)
    requires
        s.len() > 0,
    ensures
        has_variable(s) == (has_variable(s.drop_last()) || s.last() is Variable),
{
    if has_variable(s) && !(s.last() is Variable) {
        let i = choose|i: int| 0 <= i < s.len() && #[trigger] s[i] is Variable;
        assert(s.drop_last()[i] is Variable);
    }
    if has_variable(s.drop_last()) {
        let i = choose|i: int| 0 <= i < s.len() - 1 && #[trigger] s.drop_last()[i] is Variable;
        assert(s[i] is Variable);
    }
}

proof fn lemma_text_and_variable_render(
    s: Seq<FormatElement>,
    x: Seq<char>,
    res: Resolved,
    st: StyleModel,
)
    requires
        text_and_variable(s, x),
    ensures
        first_entry(res.variables@, x, 0) is None ==> render_elements(s, res, st) matches Ok(
            (_, false),
        ),
        first_entry(res.variables@, x, 0) matches Some(k) ==> (res.variables@[k].1 matches Ok(
            VariableValue::Plain(p),
        ) ==> render_elements(s, res, st) == Ok::<(Seq<SegmentModel>, bool), Seq<char>>(
            (filled(s, p@, st), p@.len() > 0 && has_variable(s)),
        )),
    decreases s.len(),
{
    lemma_first_entry_bounds(res.variables@, x, 0);
    reveal_with_fuel(render_elements, 2);
    if s.len() > 0 {
        assert(text_and_variable(s.drop_last(), x)) by {
            assert forall|i: int| 0 <= i < s.drop_last().len() implies (
            #[trigger] s.drop_last()[i] is Text || (s.drop_last()[i] matches FormatElement::Variable(
                v,
            ) && v@ == x)) by {
                assert(s.drop_last()[i] == s[i]);
            }
        }
        lemma_text_and_variable_render(s.drop_last(), x, res, st);
        lemma_has_variable_last(s);
        assert(s.last() == s[s.len() - 1]);
    }
}

/// A conditional group of literal text and variables `x`, one at least:
/// where `x` is absent the group renders to nothing; where `x` resolves to
/// non-empty text it renders its content, the text around `x` kept.
pub proof fn lemma_conditional_shows_when_filled(
    f: Vec<FormatElement>,
    x: Seq<char>,
    res: Resolved,
    st: StyleModel,
)
    requires
        text_and_variable(f@, x),
        has_variable(f@),
    ensures
        first_entry(res.variables@, x, 0) is None ==> render_element(
            FormatElement::Conditional(f),
            res,
            st,
        ) == Ok::<(Seq<SegmentModel>, bool), Seq<char>>((Seq::empty(), false)),
        forall|k: int|
            first_entry(res.variables@, x, 0) == Some(k) ==> (res.variables@[k].1 matches Ok(
                VariableValue::Plain(p),
            ) ==> (p@.len() > 0 ==> render_element(FormatElement::Conditional(f), res, st) == Ok::<
                (Seq<SegmentModel>, bool),
                Seq<char>,
            >((filled(f@, p@, st), true)))),
{
    lemma_text_and_variable_render(f@, x, res, st);
}

/// A styled group nested in another renders its content in the outer
/// group's style with the inner group's style applied over it, so that
/// where both set a color the inner one holds.
pub proof fn lemma_nested_styles_compose(
    content: Seq<FormatElement>,
    inner: Seq<StyleElement>,
    outer: Seq<StyleElement>,
    res: Resolved,
    st: StyleModel,
    g_inner: crate::model::TextGroup,
    f_outer: Vec<FormatElement>,
    g_outer: crate::model::TextGroup,
)
    requires
        g_inner.format@ == content,
        g_inner.style@ == inner,
        f_outer@ == seq![FormatElement::TextGroup(g_inner)],
        g_outer.format == f_outer,
        g_outer.style@ == outer,
    ensures
        render_element(FormatElement::TextGroup(g_outer), res, st) == render_elements(
            content,
            res,
            apply_style_elements(apply_style_elements(st, outer, res), inner, res),
        ),
{
    reveal_with_fuel(render_element, 3);
    reveal_with_fuel(render_elements, 3);
    let s2 = apply_style_elements(st, outer, res);
    let sq = seq![FormatElement::TextGroup(g_inner)];
    assert(g_outer.format@ == sq);
    assert(sq.last() == FormatElement::TextGroup(g_inner));
    assert(sq.drop_last() =~= Seq::<FormatElement>::empty());
    assert(render_elements(sq.drop_last(), res, s2) == Ok::<(Seq<SegmentModel>, bool), Seq<char>>(
        (Seq::empty(), false),
    ));
    match render_elements(content, res, apply_style_elements(s2, inner, res)) {
        Ok((segs, b)) => {
            assert(Seq::<SegmentModel>::empty() + segs =~= segs);
        },
        Err(_) => {},
    }
}

/// The variable names whose values rendering an element looks up: those of
/// its variables and link targets, in every nested content.
pub open spec fn value_element_vars(e: FormatElement) -> Set<Seq<char>>
    decreases e,
{
    match e {
        FormatElement::Variable(v) => set![v@],
        FormatElement::Link(l) => value_vars(l.format@) + crate::model::url_vars(l.url@),
        FormatElement::TextGroup(g) => value_vars(g.format@),
        FormatElement::Conditional(f) => value_vars(f@),
        FormatElement::Text(_) => Set::empty(),
    }
}

/// The variable names whose values rendering a sequence looks up.
pub open spec fn value_vars(s: Seq<FormatElement>) -> Set<Seq<char>>
    decreases s,
{
    if s.len() == 0 {
        Set::empty()
    } else {
        value_vars(s.drop_last()) + value_element_vars(s.last())
    }
}

/// A failure that a resolver reports for a variable that a link target
/// names makes the target fail.
proof fn lemma_url_failure(s: Seq<URLElement>, res: Resolved, v: Seq<char>)
    requires
        crate::model::url_vars(s).contains(v),
        first_entry(res.variables@, v, 0) matches Some(k) && res.variables@[k].1 is Err,
    ensures
        url_text(s, res) is Err,
    decreases s.len(),
{
    if s.len() > 0 {
        if crate::model::url_vars(s.drop_last()).contains(v) {
            lemma_url_failure(s.drop_last(), res, v);
        }
    }
}

/// A failure that a resolver reports for any variable in an element makes
/// its rendering fail.
pub proof fn lemma_element_failure(e: FormatElement, res: Resolved, st: StyleModel, v: Seq<char>)
    requires
        value_element_vars(e).contains(v),
        first_entry(res.variables@, v, 0) matches Some(k) && res.variables@[k].1 is Err,
    ensures
        render_element(e, res, st) is Err,
    decreases e,
{
    match e {
        FormatElement::Link(l) => {
            if value_vars(l.format@).contains(v) {
                lemma_failure_anywhere(l.format@, res, st, v);
            } else {
                lemma_url_failure(l.url@, res, v);
            }
        },
        FormatElement::TextGroup(g) => {
            lemma_failure_anywhere(g.format@, res, apply_style_elements(st, g.style@, res), v);
        },
        FormatElement::Conditional(f) => {
            lemma_failure_anywhere(f@, res, st, v);
        },
        _ => {},
    }
}

/// A failure that a resolver reports for any variable anywhere in a
/// template makes the whole rendering fail: no segment comes out.
pub proof fn lemma_failure_anywhere(s: Seq<FormatElement>, res: Resolved, st: StyleModel, v: Seq<char>)
    requires
        value_vars(s).contains(v),
        first_entry(res.variables@, v, 0) matches Some(k) && res.variables@[k].1 is Err,
    ensures
        render_elements(s, res, st) is Err,
    decreases s,
{
    if s.len() > 0 {
        if value_vars(s.drop_last()).contains(v) {
            lemma_failure_anywhere(s.drop_last(), res, st, v);
        } else {
            lemma_element_failure(s.last(), res, st, v);
        }
    }
}

/// What a call of `render` gave: the segments' models, or the message.
pub open spec fn render_outcome(r: Result<Vec<Segment>, RenderError>) -> Result<
    Seq<SegmentModel>,
    Seq<char>,
> {
    match r {
        Ok(v) => Ok(segment_models(v@)),
        Err(e) => Err(e.message@),
    }
}

/// Rendering one unchanged tree twice with the same resolved values gives
/// the same segments, or the same failure.
pub proof fn lemma_render_repeatable(
    format: Vec<FormatElement>,
    res: Resolved,
    r1: Result<Vec<Segment>, RenderError>,
    r2: Result<Vec<Segment>, RenderError>,
)
    requires
        render_outcome(r1) == render_result(format@, res),
        render_outcome(r2) == render_result(format@, res),
    ensures
        render_outcome(r1) == render_outcome(r2),
{
}

/// What rendering a template gives: its segments under no style, or the
/// first failure's message.
pub open spec fn render_result(s: Seq<FormatElement>, res: Resolved) -> Result<
    Seq<SegmentModel>,
    Seq<char>,
> {
    match render_elements(s, res, crate::style::plain_style()) {
        Ok((segs, _)) => Ok(segs),
        Err(m) => Err(m),
    }
}

} // verus!
