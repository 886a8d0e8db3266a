//! Parsing a format template into its syntax tree.
//!
//! Grammar: `$name` is a variable (letters, digits, `_`); `(...)` is a
//! conditional group; `[...](style)` is a styled group whose style holds
//! literal style text and `$name` style variables; `[...](link:target)` is a
//! hyperlink whose target holds literal text and `$name` variables; `\`
//! escapes one of `$ [ ] ( ) \`; anything else is literal text.
use vstd::prelude::*;
use vstd::string::StringExecFns;
use crate::model::{FormatElement, Link, StyleElement, TextGroup, URLElement};

verus! {

/// What went wrong, and at which character.
#[derive(PartialEq, Eq, Structural, Clone, Copy, Debug)]
pub enum ParseErrorKind {
    /// A `$` that no name follows.
    DanglingSigil,
    /// A `\` that none of `$ [ ] ( ) \` follows.
    UnknownEscape,
    /// A group that is not closed, or a closing bracket with no group open.
    Unbalanced,
    /// A `[...]` that no `(...)` follows.
    MissingStyle,
}

/// A malformed template: the kind of fault and the index of the character.
#[derive(PartialEq, Eq, Structural, Clone, Copy, Debug)]
pub struct ParseError {
    pub kind: ParseErrorKind,
    pub position: usize,
}

pub open spec fn is_special(c: char) -> bool {
    c == '$' || c == '[' || c == ']' || c == '(' || c == ')' || c == '\\'
}

pub open spec fn is_name_char(c: char) -> bool {
    ('a' <= c && c <= 'z') || ('A' <= c && c <= 'Z') || ('0' <= c && c <= '9') || c == '_'
}

/// Literal text as a template writes it: special characters escaped.
pub open spec fn escaped(t: Seq<char>) -> Seq<char>
    decreases t.len(),
{
    if t.len() == 0 {
        Seq::empty()
    } else {
        escaped(t.drop_last()) + if is_special(t.last()) {
            seq!['\\', t.last()]
        } else {
            seq![t.last()]
        }
    }
}

/// A style sequence as a template writes it.
pub open spec fn style_source(s: Seq<StyleElement>) -> Seq<char>
    decreases s.len(),
{
    if s.len() == 0 {
        Seq::empty()
    } else {
        style_source(s.drop_last()) + match s.last() {
            StyleElement::Text(t) => t@,
            StyleElement::Variable(v) => seq!['$'] + v@,
        }
    }
}

/// A link target as a template writes it.
pub open spec fn url_source(s: Seq<URLElement>) -> Seq<char>
    decreases s.len(),
{
    if s.len() == 0 {
        Seq::empty()
    } else {
        url_source(s.drop_last()) + match s.last() {
            URLElement::Text(t) => t@,
            URLElement::Variable(v) => seq!['$'] + v@,
        }
    }
}

/// One element as a template writes it.
pub open spec fn element_source(e: FormatElement) -> Seq<char>
    decreases e,
{
    match e {
        FormatElement::Text(t) => escaped(t@),
        FormatElement::Variable(v) => seq!['$'] + v@,
        FormatElement::Conditional(f) => seq!['('] + format_source(f@) + seq![')'],
        FormatElement::TextGroup(g) => seq!['['] + format_source(g.format@) + seq![']', '(']
            + style_source(g.style@) + seq![')'],
        FormatElement::Link(l) => seq!['['] + format_source(l.format@) + seq![']', '('] + "link:"@
            + url_source(l.url@) + seq![')'],
    }
}

/// A sequence of elements as a template writes it.
pub open spec fn format_source(s: Seq<FormatElement>) -> Seq<char>
    decreases s,
{
    if s.len() == 0 {
        Seq::empty()
    } else {
        format_source(s.drop_last()) + element_source(s.last())
    }
}

/// A variable name: letters, digits and `_`, one at least.
pub open spec fn is_name(v: Seq<char>) -> bool {
    v.len() > 0 && forall|k: int| 0 <= k < v.len() ==> is_name_char(#[trigger] v[k])
}

/// Whether a text starts with a character that could continue a name.
pub open spec fn begins_with_name_char(t: Seq<char>) -> bool {
    t.len() > 0 && is_name_char(t[0])
}

/// Literal text of a style or link target: not empty, and without `$` or `)`.
pub open spec fn side_text(t: Seq<char>) -> bool {
    t.len() > 0 && forall|k: int| 0 <= k < t.len() ==> #[trigger] t[k] != '$' && t[k] != ')'
}

/// A well-formed style sequence: names are names, texts are literal style
/// text, and a text follows only a variable whose name it could not have
/// continued.
pub open spec fn style_well_formed(s: Seq<StyleElement>) -> bool {
    &&& forall|i: int|
        0 <= i < s.len() ==> match #[trigger] s[i] {
            StyleElement::Variable(v) => is_name(v@),
            StyleElement::Text(t) => side_text(t@),
        }
    &&& forall|i: int|
        0 < i < s.len() ==> (#[trigger] s[i] matches StyleElement::Text(t) ==> s[i - 1] is Variable
            && !begins_with_name_char(t@))
}

/// A well-formed link target, in the same sense.
pub open spec fn url_well_formed(s: Seq<URLElement>) -> bool {
    &&& forall|i: int|
        0 <= i < s.len() ==> match #[trigger] s[i] {
            URLElement::Variable(v) => is_name(v@),
            URLElement::Text(t) => side_text(t@),
        }
    &&& forall|i: int|
        0 < i < s.len() ==> (#[trigger] s[i] matches URLElement::Text(t) ==> s[i - 1] is Variable
            && !begins_with_name_char(t@))
}

/// Whether a text starts with `link:`, the mark of a link target.
pub open spec fn starts_with_link_mark(t: Seq<char>) -> bool {
    t.len() >= 5 && t.subrange(0, 5) == "link:"@
}

/// A well-formed element: names are names, texts are not empty, a style
/// does not start with the link mark, and every nested sequence is
/// well-formed.
pub open spec fn element_well_formed(e: FormatElement) -> bool
    decreases e,
{
    match e {
        FormatElement::Text(t) => t@.len() > 0,
        FormatElement::Variable(v) => is_name(v@),
        FormatElement::Conditional(f) => format_well_formed(f@),
        FormatElement::TextGroup(g) => format_well_formed(g.format@) && style_well_formed(g.style@)
            && !starts_with_link_mark(style_source(g.style@)),
        FormatElement::Link(l) => format_well_formed(l.format@) && url_well_formed(l.url@),
    }
}

/// A text may not follow a text, nor a variable whose name it could have
/// continued (a name is the longest one that the text offers).
pub open spec fn may_follow(prev: FormatElement, next: FormatElement) -> bool {
    next matches FormatElement::Text(t) ==> !(prev is Text) && !(prev is Variable
        && begins_with_name_char(t@))
}

/// A well-formed sequence of elements: each is well-formed, and each
/// follows the one before it as `may_follow` allows. Such a sequence is the
/// one way to write its source.
pub open spec fn format_well_formed(s: Seq<FormatElement>) -> bool
    decreases s,
{
    if s.len() == 0 {
        true
    } else {
        format_well_formed(s.drop_last()) && element_well_formed(s.last()) && (s.len() >= 2
            ==> may_follow(s[s.len() - 2], s.last()))
    }
}

proof fn lemma_escaped_first(t: Seq<char>)
    requires
        t.len() > 0,
    ensures
        escaped(t).len() > 0,
        escaped(t)[0] == (if is_special(t[0]) {
            '\\'
        } else {
            t[0]
        }),
    decreases t.len(),
{
    if t.len() > 1 {
        lemma_escaped_first(t.drop_last());
        assert(t.drop_last()[0] == t[0]);
    } else {
        assert(escaped(t.drop_last()) =~= Seq::<char>::empty());
    }
}

proof fn lemma_escaped_concat(a: Seq<char>, b: Seq<char>)
    ensures
        escaped(a + b) == escaped(a) + escaped(b),
    decreases b.len(),
{
    if b.len() == 0 {
        assert(a + b =~= a);
        assert(escaped(a) + escaped(b) =~= escaped(a));
    } else {
        assert((a + b).drop_last() =~= a + b.drop_last());
        lemma_escaped_concat(a, b.drop_last());
        assert(escaped(a + b) =~= escaped(a) + escaped(b));
    }
}

/// How the element at the front of a sequence begins its source.
pub open spec fn element_lead(e: FormatElement) -> char {
    match e {
        FormatElement::Text(t) => escaped(t@)[0],
        FormatElement::Variable(_) => '$',
        FormatElement::Conditional(_) => '(',
        _ => '[',
    }
}

proof fn lemma_format_front(u: Seq<FormatElement>)
    requires
        u.len() > 0,
    ensures
        format_source(u) == element_source(u[0]) + format_source(u.drop_first()),
        format_well_formed(u) ==> element_well_formed(u[0]) && format_well_formed(u.drop_first())
            && (u.len() >= 2 ==> may_follow(u[0], u[1])),
    decreases u.len(),
{
    if u.len() == 1 {
        assert(u.drop_first() =~= Seq::<FormatElement>::empty());
        assert(u.drop_last() =~= Seq::<FormatElement>::empty());
        assert(format_source(u.drop_last()) == Seq::<char>::empty());
        assert(u.last() == u[0]);
        assert(Seq::<char>::empty() + element_source(u[0]) =~= element_source(u[0]));
        assert(format_source(u) =~= element_source(u[0]));
        assert(element_source(u[0]) + Seq::<char>::empty() =~= element_source(u[0]));
    } else {
        lemma_format_front(u.drop_last());
        assert(u.drop_first().drop_last() =~= u.drop_last().drop_first());
        assert(u.drop_last()[0] == u[0]);
        assert(u.drop_first().last() == u.last());
        assert(format_source(u) =~= element_source(u[0]) + format_source(u.drop_first()));
        if u.len() >= 3 {
            assert(u.drop_first()[u.drop_first().len() - 2] == u[u.len() - 2]);
            assert(u.drop_last()[1] == u[1]);
        }
    }
}

proof fn lemma_element_lead(e: FormatElement)
    requires
        element_well_formed(e),
    ensures
        element_source(e).len() > 0,
        element_source(e)[0] == element_lead(e),
        e matches FormatElement::Text(t) ==> (element_lead(e) == '\\' || (!is_special(
            element_lead(e),
        ) && element_lead(e) == t@[0])),
{
    if let FormatElement::Text(t) = e {
        lemma_escaped_first(t@);
    }
}

proof fn lemma_style_front(u: Seq<StyleElement>)
    requires
        u.len() > 0,
    ensures
        style_source(u) == style_source(seq![u[0]]) + style_source(u.drop_first()),
        style_source(seq![u[0]]) == match u[0] {
            StyleElement::Text(t) => t@,
            StyleElement::Variable(v) => seq!['$'] + v@,
        },
        style_well_formed(u) ==> style_well_formed(u.drop_first()),
    decreases u.len(),
{
    assert(seq![u[0]].drop_last() =~= Seq::<StyleElement>::empty());
    assert(seq![u[0]].last() == u[0]);
    match u[0] {
        StyleElement::Text(t) => {
            assert(Seq::<char>::empty() + t@ =~= t@);
        },
        StyleElement::Variable(v) => {
            assert(Seq::<char>::empty() + (seq!['$'] + v@) =~= seq!['$'] + v@);
        },
    }
    if u.len() == 1 {
        assert(u.drop_first() =~= Seq::<StyleElement>::empty());
        assert(u =~= seq![u[0]]);
        assert(style_source(u) =~= style_source(seq![u[0]]) + Seq::<char>::empty());
    } else {
        lemma_style_front(u.drop_last());
        assert(u.drop_first().drop_last() =~= u.drop_last().drop_first());
        assert(u.drop_last()[0] == u[0]);
        assert(u.drop_first().last() == u.last());
        assert(style_source(u) =~= style_source(seq![u[0]]) + style_source(u.drop_first()));
    }
    if style_well_formed(u) {
        assert forall|i: int| 0 < i < u.drop_first().len() implies (
        #[trigger] u.drop_first()[i] matches StyleElement::Text(t) ==> u.drop_first()[i - 1] is Variable
            && !begins_with_name_char(t@)) by {
            assert(u.drop_first()[i] == u[i + 1]);
            assert(u.drop_first()[i - 1] == u[i]);
        }
        assert forall|i: int| 0 <= i < u.drop_first().len() implies match #[trigger] u.drop_first()[i] {
            StyleElement::Variable(v) => is_name(v@),
            StyleElement::Text(t) => side_text(t@),
        } by {
            assert(u.drop_first()[i] == u[i + 1]);
        }
    }
}

proof fn lemma_url_front(u: Seq<URLElement>)
    requires
        u.len() > 0,
    ensures
        url_source(u) == url_source(seq![u[0]]) + url_source(u.drop_first()),
        url_source(seq![u[0]]) == match u[0] {
            URLElement::Text(t) => t@,
            URLElement::Variable(v) => seq!['$'] + v@,
        },
        url_well_formed(u) ==> url_well_formed(u.drop_first()),
    decreases u.len(),
{
    assert(seq![u[0]].drop_last() =~= Seq::<URLElement>::empty());
    assert(seq![u[0]].last() == u[0]);
    match u[0] {
        URLElement::Text(t) => {
            assert(Seq::<char>::empty() + t@ =~= t@);
        },
        URLElement::Variable(v) => {
            assert(Seq::<char>::empty() + (seq!['$'] + v@) =~= seq!['$'] + v@);
        },
    }
    if u.len() == 1 {
        assert(u.drop_first() =~= Seq::<URLElement>::empty());
        assert(u =~= seq![u[0]]);
        assert(url_source(u) =~= url_source(seq![u[0]]) + Seq::<char>::empty());
    } else {
        lemma_url_front(u.drop_last());
        assert(u.drop_first().drop_last() =~= u.drop_last().drop_first());
        assert(u.drop_last()[0] == u[0]);
        assert(u.drop_first().last() == u.last());
        assert(url_source(u) =~= url_source(seq![u[0]]) + url_source(u.drop_first()));
    }
    if url_well_formed(u) {
        assert forall|i: int| 0 < i < u.drop_first().len() implies (
        #[trigger] u.drop_first()[i] matches URLElement::Text(t) ==> u.drop_first()[i - 1] is Variable
            && !begins_with_name_char(t@)) by {
            assert(u.drop_first()[i] == u[i + 1]);
            assert(u.drop_first()[i - 1] == u[i]);
        }
        assert forall|i: int| 0 <= i < u.drop_first().len() implies match #[trigger] u.drop_first()[i] {
            URLElement::Variable(v) => is_name(v@),
            URLElement::Text(t) => side_text(t@),
        } by {
            assert(u.drop_first()[i] == u[i + 1]);
        }
    }
}

/// Whether `e` names a fault that the text has at `e.position`: a `$` with
/// no name after it, a `\` with no special character after it, a `]` with
/// no `(` after it, or a bracket of a group that is not balanced.
pub open spec fn fault_at(s: Seq<char>, e: ParseError) -> bool {
    let p = e.position as int;
    match e.kind {
        ParseErrorKind::DanglingSigil => p < s.len() && s[p] == '$' && (p + 1 >= s.len()
            || !is_name_char(s[p + 1])),
        ParseErrorKind::UnknownEscape => p < s.len() && s[p] == '\\' && (p + 1 >= s.len()
            || !is_special(s[p + 1])),
        ParseErrorKind::MissingStyle => p < s.len() && s[p] == ']' && (p + 1 >= s.len() || s[p
            + 1] != '('),
        ParseErrorKind::Unbalanced => p < s.len() && (s[p] == '(' || s[p] == '[' || s[p] == ')'
            || s[p] == ']'),
    }
}

/// Whether no character from `i` on is special.
pub open spec fn plain_from(s: Seq<char>, i: int) -> bool {
    forall|k: int| i <= k < s.len() ==> !is_special(#[trigger] s[k])
}

fn is_special_char(c: char) -> (r: bool)
    ensures
        r == is_special(c),
{
    c == '$' || c == '[' || c == ']' || c == '(' || c == ')' || c == '\\'
}

fn is_name_char_exec(c: char) -> (r: bool)
    ensures
        r == is_name_char(c),
{
    ('a' <= c && c <= 'z') || ('A' <= c && c <= 'Z') || ('0' <= c && c <= '9') || c == '_'
}

/// The end of the name that starts at `i`.
fn name_end(s: &str, n: usize, i: usize) -> (r: usize)
    requires
        n == s@.len(),
        i <= n,
    ensures
        i <= r <= n,
        forall|k: int| i <= k < r ==> is_name_char(#[trigger] s@[k]),
        r == n || !is_name_char(s@[r as int]),
{
    let mut j = i;
    while j < n && is_name_char_exec(s.get_char(j))
        invariant
            n == s@.len(),
            i <= j <= n,
            forall|k: int| i <= k < j ==> is_name_char(#[trigger] s@[k]),
        decreases n - j,
    {
        j = j + 1;
    }
    j
}

/// Where a name of `len` characters stands from `i` on, followed by a
/// character that cannot continue it, the name ends there.
proof fn lemma_name_exact(s: Seq<char>, i: int, len: int, r: int)
    requires
        0 <= i,
        0 <= len,
        i + len <= s.len(),
        forall|k: int| i <= k < i + len ==> is_name_char(#[trigger] s[k]),
        i + len == s.len() || !is_name_char(s[i + len]),
        i <= r <= s.len(),
        forall|k: int| i <= k < r ==> is_name_char(#[trigger] s[k]),
        r == s.len() || !is_name_char(s[r]),
    ensures
        r == i + len,
{
    if r < i + len {
        assert(is_name_char(s[r]));
    } else if r > i + len {
        assert(is_name_char(s[i + len]));
    }
}

proof fn lemma_join(s: Seq<char>, a: int, b: int, c: int)
    requires
        0 <= a <= b <= c <= s.len(),
    ensures
        s.subrange(a, b) + s.subrange(b, c) == s.subrange(a, c),
{
    assert(s.subrange(a, b) + s.subrange(b, c) =~= s.subrange(a, c));
}

/// Where `w` is the text from `j` to `f`, the front piece of `w` of length
/// `len` is the text from `j` to `j + len`, and the rest is the text after.
proof fn lemma_split_at(s: Seq<char>, j: int, f: int, a: Seq<char>, b: Seq<char>)
    requires
        0 <= j <= f <= s.len(),
        a + b == s.subrange(j, f),
    ensures
        s.subrange(j, j + a.len()) == a,
        s.subrange(j + a.len(), f) == b,
        forall|k: int| 0 <= k < a.len() ==> s[j + k] == #[trigger] a[k],
{
    assert((a + b).len() == f - j);
    assert(s.subrange(j, j + a.len()) =~= (a + b).subrange(0, a.len() as int));
    assert(s.subrange(j + a.len(), f) =~= (a + b).subrange(a.len() as int, (a + b).len() as int));
    assert forall|k: int| 0 <= k < a.len() implies s[j + k] == #[trigger] a[k] by {
        assert((a + b)[k] == a[k]);
        assert(s.subrange(j, f)[k] == s[j + k]);
    }
}

proof fn lemma_style_push(out: Seq<StyleElement>, x: StyleElement)
    requires
        style_well_formed(out),
        match x {
            StyleElement::Variable(v) => is_name(v@),
            StyleElement::Text(t) => side_text(t@) && (out.len() > 0 ==> out.last() is Variable
                && !begins_with_name_char(t@)),
        },
    ensures
        style_well_formed(out.push(x)),
{
    let o = out.push(x);
    assert forall|q: int| 0 <= q < o.len() implies match #[trigger] o[q] {
        StyleElement::Variable(v) => is_name(v@),
        StyleElement::Text(t) => side_text(t@),
    } by {
        if q < out.len() {
            assert(o[q] == out[q]);
        }
    }
    assert forall|q: int| 0 < q < o.len() implies (#[trigger] o[q] matches StyleElement::Text(t) ==> o[q
        - 1] is Variable && !begins_with_name_char(t@)) by {
        if q < out.len() {
            assert(o[q] == out[q]);
            assert(o[q - 1] == out[q - 1]);
        } else {
            assert(o[q - 1] == out.last());
        }
    }
}

/// Literal text `x`, escaped, stands at `i` and ends where a special
/// character other than `\` follows, or at the end.
pub open spec fn text_fits(s: Seq<char>, i: int, x: Seq<char>) -> bool {
    &&& x.len() > 0
    &&& 0 <= i
    &&& i + escaped(x).len() <= s.len()
    &&& s.subrange(i, i + escaped(x).len()) == escaped(x)
    &&& (i + escaped(x).len() == s.len() || (is_special(s[i + escaped(x).len()]) && s[i
        + escaped(x).len()] != '\\'))
}

proof fn lemma_text_step(s: Seq<char>, i: int, x: Seq<char>, m: int)
    requires
        text_fits(s, i, x),
        0 <= m < x.len(),
    ensures
        escaped(x.take(m + 1)).len() == escaped(x.take(m)).len() + (if is_special(x[m]) {
            2int
        } else {
            1int
        }),
        escaped(x.take(m + 1)).len() <= escaped(x).len(),
        is_special(x[m]) ==> s[i + escaped(x.take(m)).len()] == '\\' && s[i + escaped(
            x.take(m),
        ).len() + 1] == x[m],
        !is_special(x[m]) ==> s[i + escaped(x.take(m)).len()] == x[m],
{
    assert(x.take(m + 1).drop_last() =~= x.take(m));
    assert(x.take(m + 1).last() == x[m]);
    assert(x.take(m + 1) + x.skip(m + 1) =~= x);
    lemma_escaped_concat(x.take(m + 1), x.skip(m + 1));
    let a = escaped(x.take(m + 1));
    lemma_split_at(s, i, i + escaped(x).len(), a, escaped(x.skip(m + 1)));
    let l = escaped(x.take(m)).len() as int;
    assert(s[i + l] == a[l]);
    if is_special(x[m]) {
        assert(s[i + (l + 1)] == a[l + 1]);
    }
}

/// Parses literal text from `i` to the next unescaped special character.
fn parse_text(s: &str, n: usize, i: usize, exp: Ghost<Option<Seq<char>>>) -> (r: Result<
    (String, usize),
    ParseError,
>)
    requires
        n == s@.len(),
        i <= n,
        exp@ matches Some(x) ==> text_fits(s@, i as int, x),
    ensures
        r matches Ok((t, e)) ==> i <= e <= n && escaped(t@) == s@.subrange(i as int, e as int)
            && (e == n || (is_special(s@[e as int]) && s@[e as int] != '\\')),
        plain_from(s@, i as int) ==> (r matches Ok((_, e)) && e == n),
        r matches Ok((_, e)) ==> (e > i || i == n || (is_special(s@[i as int]) && s@[i as int]
            != '\\')),
        r matches Err(e) ==> fault_at(s@, e),
        exp@ matches Some(x) ==> (r matches Ok((_, e)) && e == i + escaped(x).len()),
{
    let ghost has = exp@ is Some;
    let ghost x: Seq<char> = match exp@ {
        Some(x) => x,
        None => Seq::empty(),
    };
    let ghost mut m: int = 0;
    assert(x.take(0) =~= Seq::<char>::empty());
    let mut t = String::new();
    let mut j = i;
    assert(escaped(t@) =~= s@.subrange(i as int, j as int));
    while j < n
        invariant
            n == s@.len(),
            i <= j <= n,
            escaped(t@) == s@.subrange(i as int, j as int),
            plain_from(s@, i as int) ==> plain_from(s@, j as int),
            has == exp@ is Some,
            has ==> exp@ == Some(x),
            has ==> text_fits(s@, i as int, x) && 0 <= m <= x.len() && j == i + escaped(
                x.take(m),
            ).len(),
        decreases n - j,
    {
        proof {
            if has {
                if m < x.len() {
                    lemma_text_step(s@, i as int, x, m);
                } else {
                    assert(x.take(m) =~= x);
                }
            }
        }
        let c = s.get_char(j);
        if c == '\\' {
            if j + 1 < n && is_special_char(s.get_char(j + 1)) {
                let piece = s.substring_char(j + 1, j + 2);
                let ghost before = t@;
                t.append(piece);
                proof {
                    assert(t@.drop_last() =~= before);
                    assert(t@.last() == s@[j + 1]);
                    assert(seq!['\\', s@[j + 1]] =~= s@.subrange(j as int, j + 2));
                    lemma_join(s@, i as int, j as int, j + 2);
                    if has {
                        m = m + 1;
                    }
                }
                j = j + 2;
            } else {
                return Err(ParseError { kind: ParseErrorKind::UnknownEscape, position: j });
            }
        } else if is_special_char(c) {
            return Ok((t, j));
        } else {
            let piece = s.substring_char(j, j + 1);
            let ghost before = t@;
            t.append(piece);
            proof {
                assert(t@.drop_last() =~= before);
                assert(t@.last() == s@[j as int]);
                assert(seq![s@[j as int]] =~= s@.subrange(j as int, j + 1));
                lemma_join(s@, i as int, j as int, j + 1);
                if has {
                    m = m + 1;
                }
            }
            j = j + 1;
        }
    }
    proof {
        if has {
            if m < x.len() {
                lemma_text_step(s@, i as int, x, m);
            } else {
                assert(x.take(m) =~= x);
            }
        }
    }
    Ok((t, j))
}

/// Parses a style payload from `i` up to its `)`.
fn parse_style(s: &str, n: usize, i: usize, exp: Ghost<Option<(Seq<StyleElement>, int)>>) -> (r: Result<
    (Vec<StyleElement>, usize),
    ParseError,
>)
    requires
        n == s@.len(),
        i <= n,
        exp@ matches Some((u, f)) ==> style_well_formed(u) && i <= f < n && s@[f] == ')' && style_source(u)
            == s@.subrange(i as int, f),
    ensures
        r matches Ok((st, e)) ==> i <= e < n && s@[e as int] == ')' && style_source(st@)
            == s@.subrange(i as int, e as int) && style_well_formed(st@),
        r matches Err(e) ==> e.kind == ParseErrorKind::Unbalanced || fault_at(s@, e),
        exp@ matches Some((_, f)) ==> (r matches Ok((_, e)) && e == f),
{
    let ghost has = exp@ is Some;
    let ghost f: int = match exp@ {
        Some((_, e)) => e,
        None => 0,
    };
    let ghost mut u: Seq<StyleElement> = match exp@ {
        Some((t, _)) => t,
        None => Seq::empty(),
    };
    let mut out: Vec<StyleElement> = Vec::new();
    let mut j = i;
    assert(style_source(out@) =~= s@.subrange(i as int, j as int));
    while j < n
        invariant
            n == s@.len(),
            i <= j <= n,
            style_source(out@) == s@.subrange(i as int, j as int),
            style_well_formed(out@),
            out@.len() > 0 && out@.last() is Variable ==> (j == n || !is_name_char(s@[j as int])),
            out@.len() > 0 && out@.last() is Text ==> (j == n || s@[j as int] == '$' || s@[j as int]
                == ')'),
            has ==> style_well_formed(u) && j <= f < n && s@[f] == ')' && style_source(u) == s@.subrange(j as int, f),
            has == exp@ is Some,
            exp@ matches Some((_, e)) ==> f == e,
        decreases n - j,
    {
        proof {
            if has && u.len() > 0 {
                lemma_style_front(u);
                lemma_split_at(s@, j as int, f, style_source(seq![u[0]]), style_source(u.drop_first()));
                assert(s@[j + 0] == style_source(seq![u[0]])[0]);
                if let StyleElement::Text(t) = u[0] {
                    assert(t@[0] != ')' && t@[0] != '$');
                }
            }
        }
        let c = s.get_char(j);
        if c == ')' {
            return Ok((out, j));
        }
        let ghost before = out@;
        let ghost piece: Seq<char> = if has {
            style_source(seq![u[0]])
        } else {
            Seq::empty()
        };
        let k;
        if c == '$' {
            k = name_end(s, n, j + 1);
            proof {
                if has {
                    if let StyleElement::Variable(v) = u[0] {
                        let len = v@.len() as int;
                        assert forall|q: int| j + 1 <= q < j + 1 + len implies is_name_char(
                            #[trigger] s@[q],
                        ) by {
                            assert(s@[j + (q - j)] == piece[q - j]);
                            assert(piece[q - j] == v@[q - j - 1]);
                        }
                        if j + 1 + len < f {
                            let w = u.drop_first();
                            lemma_style_front(w);
                            lemma_split_at(s@, j + 1 + len, f, style_source(seq![w[0]]), style_source(w.drop_first()));
                            assert(s@[j + 1 + len + 0] == style_source(seq![w[0]])[0]);
                            assert(w[0] == u[1]);
                            if let StyleElement::Text(t2) = w[0] {
                                assert(!begins_with_name_char(t2@));
                            }
                        }
                        lemma_name_exact(s@, j + 1, len, k as int);
                    }
                }
            }
            if k == j + 1 {
                return Err(ParseError { kind: ParseErrorKind::DanglingSigil, position: j });
            }
            let name = s.substring_char(j + 1, k).to_owned();
            assert(is_name(name@));
            proof {
                lemma_style_push(out@, StyleElement::Variable(name));
            }
            out.push(StyleElement::Variable(name));
            assert(seq!['$'] + s@.subrange(j + 1, k as int) =~= s@.subrange(j as int, k as int));
        } else {
            let ghost tl: int = if has {
                piece.len() as int
            } else {
                0
            };
            proof {
                if has {
                    if let StyleElement::Text(t) = u[0] {
                        assert forall|q: int| 0 <= q < tl implies #[trigger] s@[j + q] != ')'
                            && s@[j + q] != '$' by {
                            assert(s@[j + q] == t@[q]);
                        }
                        if u.len() == 1 {
                            assert(u.drop_first().len() == 0);
                            assert(j + tl == f);
                        } else {
                            let w = u.drop_first();
                            lemma_style_front(w);
                            lemma_split_at(s@, j + tl, f, style_source(seq![w[0]]), style_source(w.drop_first()));
                            assert(s@[j + tl + 0] == style_source(seq![w[0]])[0]);
                            assert(w[0] == u[1]);
                            assert(u[1] is Variable);
                        }
                    }
                }
            }
            let mut m = j + 1;
            while m < n && s.get_char(m) != ')' && s.get_char(m) != '$'
                invariant
                    n == s@.len(),
                    j < m <= n,
                    forall|q: int| j <= q < m ==> #[trigger] s@[q] != ')' && s@[q] != '$',
                    has ==> m <= j + tl && j + tl < n && (s@[j + tl] == ')' || s@[j + tl] == '$'),
                    has ==> forall|q: int| 0 <= q < tl ==> #[trigger] s@[j + q] != ')' && s@[j + q]
                        != '$',
                decreases n - m,
            {
                proof {
                    if has {
                        assert(m != j + tl);
                    }
                }
                m = m + 1;
            }
            proof {
                if has && m < j + tl {
                    assert(s@[j + (m - j)] != ')');
                }
            }
            k = m;
            let text = s.substring_char(j, k).to_owned();
            proof {
                assert(text@ == s@.subrange(j as int, k as int));
                assert forall|q: int| 0 <= q < text@.len() implies #[trigger] text@[q] != '$'
                    && text@[q] != ')' by {
                    assert(text@[q] == s@[j + q]);
                }
                if before.len() > 0 {
                    assert(before.last() is Variable);
                    assert(text@[0] == s@[j as int]);
                }
                lemma_style_push(out@, StyleElement::Text(text));
            }
            out.push(StyleElement::Text(text));
        }
        proof {
            assert(out@.drop_last() =~= before);
            lemma_join(s@, i as int, j as int, k as int);
            if has {
                assert(k == j + piece.len());
                u = u.drop_first();
            }
        }
        j = k;
    }
    Err(ParseError { kind: ParseErrorKind::Unbalanced, position: n })
}

proof fn lemma_url_push(out: Seq<URLElement>, x: URLElement)
    requires
        url_well_formed(out),
        match x {
            URLElement::Variable(v) => is_name(v@),
            URLElement::Text(t) => side_text(t@) && (out.len() > 0 ==> out.last() is Variable
                && !begins_with_name_char(t@)),
        },
    ensures
        url_well_formed(out.push(x)),
{
    let o = out.push(x);
    assert forall|q: int| 0 <= q < o.len() implies match #[trigger] o[q] {
        URLElement::Variable(v) => is_name(v@),
        URLElement::Text(t) => side_text(t@),
    } by {
        if q < out.len() {
            assert(o[q] == out[q]);
        }
    }
    assert forall|q: int| 0 < q < o.len() implies (#[trigger] o[q] matches URLElement::Text(t) ==> o[q
        - 1] is Variable && !begins_with_name_char(t@)) by {
        if q < out.len() {
            assert(o[q] == out[q]);
            assert(o[q - 1] == out[q - 1]);
        } else {
            assert(o[q - 1] == out.last());
        }
    }
}

/// Parses a link target from `i` up to its `)`.
fn parse_url(s: &str, n: usize, i: usize, exp: Ghost<Option<(Seq<URLElement>, int)>>) -> (r: Result<
    (Vec<URLElement>, usize),
    ParseError,
>)
    requires
        n == s@.len(),
        i <= n,
        exp@ matches Some((u, f)) ==> url_well_formed(u) && i <= f < n && s@[f] == ')' && url_source(u)
            == s@.subrange(i as int, f),
    ensures
        r matches Ok((st, e)) ==> i <= e < n && s@[e as int] == ')' && url_source(st@)
            == s@.subrange(i as int, e as int) && url_well_formed(st@),
        r matches Err(e) ==> e.kind == ParseErrorKind::Unbalanced || fault_at(s@, e),
        exp@ matches Some((_, f)) ==> (r matches Ok((_, e)) && e == f),
{
    let ghost has = exp@ is Some;
    let ghost f: int = match exp@ {
        Some((_, e)) => e,
        None => 0,
    };
    let ghost mut u: Seq<URLElement> = match exp@ {
        Some((t, _)) => t,
        None => Seq::empty(),
    };
    let mut out: Vec<URLElement> = Vec::new();
    let mut j = i;
    assert(url_source(out@) =~= s@.subrange(i as int, j as int));
    while j < n
        invariant
            n == s@.len(),
            i <= j <= n,
            url_source(out@) == s@.subrange(i as int, j as int),
            url_well_formed(out@),
            out@.len() > 0 && out@.last() is Variable ==> (j == n || !is_name_char(s@[j as int])),
            out@.len() > 0 && out@.last() is Text ==> (j == n || s@[j as int] == '$' || s@[j as int]
                == ')'),
            has ==> url_well_formed(u) && j <= f < n && s@[f] == ')' && url_source(u) == s@.subrange(j as int, f),
            has == exp@ is Some,
            exp@ matches Some((_, e)) ==> f == e,
        decreases n - j,
    {
        proof {
            if has && u.len() > 0 {
                lemma_url_front(u);
                lemma_split_at(s@, j as int, f, url_source(seq![u[0]]), url_source(u.drop_first()));
                assert(s@[j + 0] == url_source(seq![u[0]])[0]);
                if let URLElement::Text(t) = u[0] {
                    assert(t@[0] != ')' && t@[0] != '$');
                }
            }
        }
        let c = s.get_char(j);
        if c == ')' {
            return Ok((out, j));
        }
        let ghost before = out@;
        let ghost piece: Seq<char> = if has {
            url_source(seq![u[0]])
        } else {
            Seq::empty()
        };
        let k;
        if c == '$' {
            k = name_end(s, n, j + 1);
            proof {
                if has {
                    if let URLElement::Variable(v) = u[0] {
                        let len = v@.len() as int;
                        assert forall|q: int| j + 1 <= q < j + 1 + len implies is_name_char(
                            #[trigger] s@[q],
                        ) by {
                            assert(s@[j + (q - j)] == piece[q - j]);
                            assert(piece[q - j] == v@[q - j - 1]);
                        }
                        if j + 1 + len < f {
                            let w = u.drop_first();
                            lemma_url_front(w);
                            lemma_split_at(s@, j + 1 + len, f, url_source(seq![w[0]]), url_source(w.drop_first()));
                            assert(s@[j + 1 + len + 0] == url_source(seq![w[0]])[0]);
                            assert(w[0] == u[1]);
                            if let URLElement::Text(t2) = w[0] {
                                assert(!begins_with_name_char(t2@));
                            }
                        }
                        lemma_name_exact(s@, j + 1, len, k as int);
                    }
                }
            }
            if k == j + 1 {
                return Err(ParseError { kind: ParseErrorKind::DanglingSigil, position: j });
            }
            let name = s.substring_char(j + 1, k).to_owned();
            assert(is_name(name@));
            proof {
                lemma_url_push(out@, URLElement::Variable(name));
            }
            out.push(URLElement::Variable(name));
            assert(seq!['$'] + s@.subrange(j + 1, k as int) =~= s@.subrange(j as int, k as int));
        } else {
            let ghost tl: int = if has {
                piece.len() as int
            } else {
                0
            };
            proof {
                if has {
                    if let URLElement::Text(t) = u[0] {
                        assert forall|q: int| 0 <= q < tl implies #[trigger] s@[j + q] != ')'
                            && s@[j + q] != '$' by {
                            assert(s@[j + q] == t@[q]);
                        }
                        if u.len() == 1 {
                            assert(u.drop_first().len() == 0);
                            assert(j + tl == f);
                        } else {
                            let w = u.drop_first();
                            lemma_url_front(w);
                            lemma_split_at(s@, j + tl, f, url_source(seq![w[0]]), url_source(w.drop_first()));
                            assert(s@[j + tl + 0] == url_source(seq![w[0]])[0]);
                            assert(w[0] == u[1]);
                            assert(u[1] is Variable);
                        }
                    }
                }
            }
            let mut m = j + 1;
            while m < n && s.get_char(m) != ')' && s.get_char(m) != '$'
                invariant
                    n == s@.len(),
                    j < m <= n,
                    forall|q: int| j <= q < m ==> #[trigger] s@[q] != ')' && s@[q] != '$',
                    has ==> m <= j + tl && j + tl < n && (s@[j + tl] == ')' || s@[j + tl] == '$'),
                    has ==> forall|q: int| 0 <= q < tl ==> #[trigger] s@[j + q] != ')' && s@[j + q]
                        != '$',
                decreases n - m,
            {
                proof {
                    if has {
                        assert(m != j + tl);
                    }
                }
                m = m + 1;
            }
            proof {
                if has && m < j + tl {
                    assert(s@[j + (m - j)] != ')');
                }
            }
            k = m;
            let text = s.substring_char(j, k).to_owned();
            proof {
                assert(text@ == s@.subrange(j as int, k as int));
                assert forall|q: int| 0 <= q < text@.len() implies #[trigger] text@[q] != '$'
                    && text@[q] != ')' by {
                    assert(text@[q] == s@[j + q]);
                }
                if before.len() > 0 {
                    assert(before.last() is Variable);
                    assert(text@[0] == s@[j as int]);
                }
                lemma_url_push(out@, URLElement::Text(text));
            }
            out.push(URLElement::Text(text));
        }
        proof {
            assert(out@.drop_last() =~= before);
            lemma_join(s@, i as int, j as int, k as int);
            if has {
                assert(k == j + piece.len());
                u = u.drop_first();
            }
        }
        j = k;
    }
    Err(ParseError { kind: ParseErrorKind::Unbalanced, position: n })
}

/// The content of a group or link; empty for other elements.
pub open spec fn content_of(e: FormatElement) -> Seq<FormatElement> {
    match e {
        FormatElement::Conditional(f) => f@,
        FormatElement::TextGroup(g) => g.format@,
        FormatElement::Link(l) => l.format@,
        _ => Seq::empty(),
    }
}

pub open spec fn text_lead_ok(e: FormatElement) -> bool {
    e matches FormatElement::Text(t) ==> (element_lead(e) == '\\' || (!is_special(element_lead(e))
        && element_lead(e) == t@[0]))
}

/// The front element of a well-formed sequence written from `j` to `e`:
/// its source, the rest, and the character that follows it.
proof fn lemma_next(s: Seq<char>, j: int, e: int, u: Seq<FormatElement>)
    requires
        u.len() > 0,
        format_well_formed(u),
        0 <= j <= e <= s.len(),
        format_source(u) == s.subrange(j, e),
    ensures
        j + element_source(u[0]).len() <= e,
        s.subrange(j, j + element_source(u[0]).len()) == element_source(u[0]),
        s.subrange(j + element_source(u[0]).len(), e) == format_source(u.drop_first()),
        format_well_formed(u.drop_first()),
        element_well_formed(u[0]),
        s[j] == element_lead(u[0]),
        text_lead_ok(u[0]),
        j + element_source(u[0]).len() == e || (u.len() >= 2 && s[j + element_source(u[0]).len()]
            == element_lead(u[1]) && may_follow(u[0], u[1]) && text_lead_ok(u[1])),
        u.len() >= 2 ==> j + element_source(u[0]).len() < e && element_well_formed(u[1]),
{
    lemma_format_front(u);
    let es = element_source(u[0]);
    lemma_split_at(s, j, e, es, format_source(u.drop_first()));
    lemma_element_lead(u[0]);
    assert(s[j + 0] == es[0]);
    if u.len() >= 2 {
        let w = u.drop_first();
        lemma_format_front(w);
        lemma_element_lead(w[0]);
        assert(w[0] == u[1]);
        let p = j + es.len();
        lemma_split_at(s, p, e, element_source(w[0]), format_source(w.drop_first()));
        assert(s[p + 0] == element_source(w[0])[0]);
    } else {
        assert(u.drop_first() =~= Seq::<FormatElement>::empty());
    }
}

/// Parses elements from `i` up to the first unescaped `)` or `]`, or to the
/// end; returns them with the index where it stopped.
#[verifier::rlimit(100)]
fn parse_elements(s: &str, n: usize, i: usize, exp: Ghost<Option<(Seq<FormatElement>, int)>>) -> (r:
    Result<(Vec<FormatElement>, usize), ParseError>)
    requires
        n == s@.len(),
        i <= n,
        exp@ matches Some((t, e)) ==> format_well_formed(t) && i <= e <= n && format_source(t)
            == s@.subrange(i as int, e) && (e == n || s@[e] == ')' || s@[e] == ']'),
    ensures
        r matches Ok((t, e)) ==> i <= e <= n && format_source(t@) == s@.subrange(i as int, e as int)
            && (e == n || s@[e as int] == ')' || s@[e as int] == ']') && format_well_formed(t@),
        plain_from(s@, i as int) ==> (r matches Ok((_, e)) && e == n),
        r matches Err(e) ==> fault_at(s@, e),
        exp@ matches Some((_, e)) ==> (r matches Ok((_, e2)) && e2 == e),
    decreases n - i, 1nat,
{
    let ghost has = exp@ is Some;
    let ghost e0: int = match exp@ {
        Some((_, e)) => e,
        None => 0,
    };
    let ghost mut u: Seq<FormatElement> = match exp@ {
        Some((t, _)) => t,
        None => Seq::empty(),
    };
    let mut out: Vec<FormatElement> = Vec::new();
    let mut j = i;
    assert(format_source(out@) =~= s@.subrange(i as int, j as int));
    while j < n
        invariant
            n == s@.len(),
            i <= j <= n,
            format_source(out@) == s@.subrange(i as int, j as int),
            plain_from(s@, i as int) ==> plain_from(s@, j as int),
            format_well_formed(out@),
            out@.len() > 0 && out@.last() is Variable ==> (j == n || !is_name_char(s@[j as int])),
            out@.len() > 0 && out@.last() is Text ==> (j == n || (is_special(s@[j as int])
                && s@[j as int] != '\\')),
            has == exp@ is Some,
            exp@ matches Some((_, e)) ==> e0 == e,
            has ==> format_well_formed(u) && j <= e0 <= n && format_source(u) == s@.subrange(
                j as int,
                e0,
            ) && (e0 == n || s@[e0] == ')' || s@[e0] == ']'),
        decreases n - j,
    {
        proof {
            if has && u.len() > 0 {
                lemma_next(s@, j as int, e0, u);
            }
        }
        let ghost es: Seq<char> = if has && u.len() > 0 {
            element_source(u[0])
        } else {
            Seq::empty()
        };
        let ghost pe: int = j + es.len();
        let c = s.get_char(j);
        if c == ')' || c == ']' {
            return Ok((out, j));
        }
        let ghost before = out@;
        let k: usize;
        if c == '$' {
            k = name_end(s, n, j + 1);
            proof {
                if has {
                    if let FormatElement::Variable(v) = u[0] {
                        let len = v@.len() as int;
                        assert forall|q: int| j + 1 <= q < j + 1 + len implies is_name_char(
                            #[trigger] s@[q],
                        ) by {
                            assert(s@.subrange(j as int, pe)[q - j] == es[q - j]);
                            assert(es[q - j] == v@[q - j - 1]);
                        }
                        assert(pe == j + 1 + len);
                        if u.len() >= 2 {
                            if let FormatElement::Text(t2) = u[1] {
                                assert(!begins_with_name_char(t2@));
                                assert(t2@.len() > 0);
                            }
                            assert(!is_name_char(s@[pe]));
                        } else {
                            assert(pe == e0);
                        }
                        lemma_name_exact(s@, j + 1, len, k as int);
                    }
                }
            }
            if k == j + 1 {
                return Err(ParseError { kind: ParseErrorKind::DanglingSigil, position: j });
            }
            let name = s.substring_char(j + 1, k).to_owned();
            assert(is_name(name@));
            out.push(FormatElement::Variable(name));
            assert(seq!['$'] + s@.subrange(j + 1, k as int) =~= s@.subrange(j as int, k as int));
        } else if c == '(' {
            let ghost a: int = format_source(content_of(u[0])).len() as int;
            let ghost inner_exp: Option<(Seq<FormatElement>, int)> = if has {
                Some((content_of(u[0]), j + 1 + a))
            } else {
                None
            };
            proof {
                if has {
                    assert(u[0] is Conditional);
                    assert(es == seq!['('] + format_source(content_of(u[0])) + seq![')']);
                    assert(es.len() == a + 2);
                    assert(es.subrange(1, 1 + a) =~= format_source(content_of(u[0])));
                    assert(s@.subrange(j + 1, j + 1 + a) =~= es.subrange(1, 1 + a));
                    assert(s@.subrange(j as int, pe)[1 + a] == es[1 + a]);
                    assert(es[1 + a] == ')');
                    assert(format_well_formed(content_of(u[0])));
                }
            }
            let (inner, e) = parse_elements(s, n, j + 1, Ghost(inner_exp))?;
            if e >= n || s.get_char(e) != ')' {
                return Err(ParseError { kind: ParseErrorKind::Unbalanced, position: j });
            }
            k = e + 1;
            out.push(FormatElement::Conditional(inner));
            assert(seq!['('] + s@.subrange(j + 1, e as int) + seq![')'] =~= s@.subrange(
                j as int,
                k as int,
            ));
        } else if c == '[' {
            let ghost group_exp: Option<(FormatElement, int)> = if has {
                Some((u[0], pe))
            } else {
                None
            };
            let (el, e) = parse_group(s, n, j, Ghost(group_exp))?;
            k = e;
            out.push(el);
        } else {
            let ghost text_exp: Option<Seq<char>> = match u[0] {
                FormatElement::Text(x) => if has {
                    Some(x@)
                } else {
                    None
                },
                _ => None,
            };
            proof {
                if has {
                    assert(u[0] is Text);
                    if let FormatElement::Text(x) = u[0] {
                        assert(escaped(x@) == es);
                        if pe < e0 {
                            assert(!(u[1] is Text));
                        }
                    }
                }
            }
            let (t, e) = parse_text(s, n, j, Ghost(text_exp))?;
            proof {
                if t@.len() == 0 {
                    assert(escaped(t@).len() == 0);
                }
                lemma_escaped_first(t@);
                assert(escaped(t@)[0] == s@[j as int]);
            }
            k = e;
            out.push(FormatElement::Text(t));
        }
        proof {
            assert(out@.drop_last() =~= before);
            if out@.len() >= 2 {
                assert(out@[out@.len() - 2] == before.last());
            }
            assert(element_source(out@.last()) == s@.subrange(j as int, k as int));
            assert(element_well_formed(out@.last()));
            lemma_join(s@, i as int, j as int, k as int);
            if has {
                assert(k == pe);
                u = u.drop_first();
            }
        }
        j = k;
    }
    proof {
        if has && u.len() > 0 {
            lemma_next(s@, j as int, e0, u);
        }
    }
    Ok((out, j))
}

/// Parses a styled group or a link that starts with the `[` at `j`;
/// returns it with the index after its closing `)`.
#[verifier::rlimit(100)]
fn parse_group(s: &str, n: usize, j: usize, exp: Ghost<Option<(FormatElement, int)>>) -> (r: Result<
    (FormatElement, usize),
    ParseError,
>)
    requires
        n == s@.len(),
        j < n,
        s@[j as int] == '[',
        exp@ matches Some((x, pe)) ==> element_well_formed(x) && (x is TextGroup || x is Link) && j
            < pe <= n && s@.subrange(j as int, pe) == element_source(x),
    ensures
        r matches Ok((x, k)) ==> j < k <= n && element_source(x) == s@.subrange(j as int, k as int)
            && element_well_formed(x) && !(x is Text) && !(x is Variable),
        r matches Err(e) ==> fault_at(s@, e),
        exp@ matches Some((_, pe)) ==> (r matches Ok((_, k)) && k == pe),
    decreases n - j, 0nat,
{
    let ghost has = exp@ is Some;
    let ghost x: FormatElement = match exp@ {
        Some((x, _)) => x,
        None => arbitrary(),
    };
    let ghost pe: int = match exp@ {
        Some((_, pe)) => pe,
        None => 0,
    };
    let ghost es = element_source(x);
    let ghost a: int = format_source(content_of(x)).len() as int;
    proof {
        reveal_strlit("link:");
    }
    let ghost inner_exp: Option<(Seq<FormatElement>, int)> = if has {
        Some((content_of(x), j + 1 + a))
    } else {
        None
    };
    proof {
        if has {
            assert(es.len() == pe - j);
            if let FormatElement::TextGroup(g) = x {
                assert(es.len() == a + 4 + style_source(g.style@).len());
            } else if let FormatElement::Link(l) = x {
                assert(es.len() == a + 9 + url_source(l.url@).len());
            }
            assert(es.subrange(1, 1 + a) =~= format_source(content_of(x)));
            assert(s@.subrange(j + 1, j + 1 + a) =~= s@.subrange(j as int, pe).subrange(1, 1 + a));
            assert(s@.subrange(j + 1, j + 1 + a) =~= es.subrange(1, 1 + a));
            assert(s@.subrange(j as int, pe)[1 + a] == es[1 + a]);
            assert(s@.subrange(j as int, pe)[2 + a] == es[2 + a]);
            assert(es[1 + a] == ']');
            assert(es[2 + a] == '(');
            assert(format_well_formed(content_of(x)));
        }
    }
    let (inner, e) = parse_elements(s, n, j + 1, Ghost(inner_exp))?;
    if e >= n || s.get_char(e) != ']' {
        return Err(ParseError { kind: ParseErrorKind::Unbalanced, position: j });
    }
    if e + 1 >= n || s.get_char(e + 1) != '(' {
        return Err(ParseError { kind: ParseErrorKind::MissingStyle, position: e });
    }
    let p = e + 2;
    proof {
        if has {
            if let FormatElement::TextGroup(g) = x {
                let ss = style_source(g.style@);
                assert(es.subrange(3 + a, 3 + a + ss.len()) =~= ss);
                assert(s@.subrange(p as int, p + ss.len()) =~= s@.subrange(j as int, pe).subrange(
                    3 + a,
                    3 + a + ss.len(),
                ));
                assert(s@.subrange(j as int, pe)[3 + a + ss.len()] == es[3 + a + ss.len()]);
                assert(es[3 + a + ss.len()] == ')');
                if ss.len() >= 5 {
                    assert(s@.subrange(p as int, p + 5) =~= ss.subrange(0, 5));
                } else if n - p >= 5 {
                    assert(s@.subrange(p as int, p + 5)[ss.len() as int] == ')');
                    assert(s@.subrange(p as int, p + 5) != "link:"@);
                }
            } else if let FormatElement::Link(l) = x {
                let us = url_source(l.url@);
                assert(es.subrange(3 + a, 8 + a) =~= "link:"@);
                assert(s@.subrange(p as int, p + 5) =~= s@.subrange(j as int, pe).subrange(3 + a, 8 + a));
                assert(es.subrange(8 + a, 8 + a + us.len()) =~= us);
                assert(s@.subrange(p + 5, p + 5 + us.len()) =~= s@.subrange(j as int, pe).subrange(
                    8 + a,
                    8 + a + us.len(),
                ));
                assert(s@.subrange(j as int, pe)[8 + a + us.len()] == es[8 + a + us.len()]);
                assert(es[8 + a + us.len()] == ')');
            }
        }
    }
    if n - p >= 5 && crate::names::str_eq(s.substring_char(p, p + 5), "link:") {
        let ghost url_exp: Option<(Seq<URLElement>, int)> = match x {
            FormatElement::Link(l) => if has {
                Some((l.url@, p + 5 + url_source(l.url@).len()))
            } else {
                None
            },
            _ => None,
        };
        let (url, f) = match parse_url(s, n, p + 5, Ghost(url_exp)) {
            Ok(v) => v,
            Err(err) => {
                return Err(
                    if err.kind == ParseErrorKind::Unbalanced {
                        ParseError { kind: ParseErrorKind::Unbalanced, position: j }
                    } else {
                        err
                    },
                );
            },
        };
        let k = f + 1;
        assert(seq!['['] + s@.subrange(j + 1, e as int) + seq![']', '('] + "link:"@ + s@.subrange(
            p + 5,
            f as int,
        ) + seq![')'] =~= s@.subrange(j as int, k as int));
        Ok((FormatElement::Link(Link { format: inner, url }), k))
    } else {
        let ghost style_exp: Option<(Seq<StyleElement>, int)> = match x {
            FormatElement::TextGroup(g) => if has {
                Some((g.style@, p + style_source(g.style@).len()))
            } else {
                None
            },
            _ => None,
        };
        let (style, f) = match parse_style(s, n, p, Ghost(style_exp)) {
            Ok(v) => v,
            Err(err) => {
                return Err(
                    if err.kind == ParseErrorKind::Unbalanced {
                        ParseError { kind: ParseErrorKind::Unbalanced, position: j }
                    } else {
                        err
                    },
                );
            },
        };
        let k = f + 1;
        proof {
            let ss = style_source(style@);
            if ss.len() >= 5 {
                assert(s@.subrange(p as int, p + 5) =~= ss.subrange(0, 5));
            }
        }
        assert(seq!['['] + s@.subrange(j + 1, e as int) + seq![']', '('] + s@.subrange(
            p as int,
            f as int,
        ) + seq![')'] =~= s@.subrange(j as int, k as int));
        Ok((FormatElement::TextGroup(TextGroup { format: inner, style }), k))
    }
}

/// Parses a template. On success the tree is well-formed (names are
/// names, each as long as the text allows, and no text follows a text) and,
/// written back as a template, gives exactly the input. Success is owed
/// wherever some well-formed tree is written as the input; an error names a
/// fault that the text has where it says.
pub fn parse_format(s: &str) -> (r: Result<Vec<FormatElement>, ParseError>)
    ensures
        r matches Ok(t) ==> format_source(t@) == s@ && format_well_formed(t@),
        (exists|t: Seq<FormatElement>| format_source(t) == s@ && format_well_formed(t)) ==> r is Ok,
        plain_from(s@, 0) ==> r is Ok,
        r matches Err(e) ==> fault_at(s@, e),
{
    let n = s.unicode_len();
    assert(s@.subrange(0, n as int) =~= s@);
    let ghost exp: Option<(Seq<FormatElement>, int)> = if exists|t: Seq<FormatElement>|
        format_source(t) == s@ && format_well_formed(t) {
        Some(
            (
                choose|t: Seq<FormatElement>| format_source(t) == s@ && format_well_formed(t),
                n as int,
            ),
        )
    } else {
        None
    };
    let (t, e) = parse_elements(s, n, 0, Ghost(exp))?;
    if e < n {
        return Err(ParseError { kind: ParseErrorKind::Unbalanced, position: e });
    }
    Ok(t)
}

} // verus!
