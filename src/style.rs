//! Style descriptors, and how style strings build them.
use vstd::prelude::*;
use crate::names::str_eq;

verus! {

/// A text attribute that a style can switch on.
#[derive(PartialEq, Eq, Structural, Clone, Copy, Debug)]
pub enum Attribute {
    Bold,
    Italic,
    Underline,
    Dimmed,
    Inverted,
    Blink,
    Hidden,
    Strikethrough,
}

/// A resolved style: colors and the attributes switched on, in the order
/// the style strings named them.
#[derive(Debug)]
pub struct Style {
    pub fg: Option<String>,
    pub bg: Option<String>,
    pub attributes: Vec<Attribute>,
}

/// What a style holds, as values.
pub struct StyleModel {
    pub fg: Option<Seq<char>>,
    pub bg: Option<Seq<char>>,
    pub attributes: Seq<Attribute>,
}

impl View for Style {
    type V = StyleModel;

    open spec fn view(&self) -> StyleModel {
        StyleModel {
            fg: match self.fg {
                Some(s) => Some(s@),
                None => None,
            },
            bg: match self.bg {
                Some(s) => Some(s@),
                None => None,
            },
            attributes: self.attributes@,
        }
    }
}

/// The style with no color and no attribute.
pub open spec fn plain_style() -> StyleModel {
    StyleModel { fg: None, bg: None, attributes: Seq::empty() }
}

/// The attribute that a style word names, if it names one.
pub open spec fn word_attribute(w: Seq<char>) -> Option<Attribute> {
    if w == "bold"@ {
        Some(Attribute::Bold)
    } else if w == "italic"@ {
        Some(Attribute::Italic)
    } else if w == "underline"@ {
        Some(Attribute::Underline)
    } else if w == "dimmed"@ {
        Some(Attribute::Dimmed)
    } else if w == "inverted"@ {
        Some(Attribute::Inverted)
    } else if w == "blink"@ {
        Some(Attribute::Blink)
    } else if w == "hidden"@ {
        Some(Attribute::Hidden)
    } else if w == "strikethrough"@ {
        Some(Attribute::Strikethrough)
    } else {
        None
    }
}

/// One style word applied to a style: `none` clears it, an attribute word
/// switches that attribute on, `fg:<color>` and `bg:<color>` set a color,
/// and any other word sets the foreground color. A later word thus
/// overrides the color that an earlier one set.
pub open spec fn apply_word(st: StyleModel, w: Seq<char>) -> StyleModel {
    if w == "none"@ {
        plain_style()
    } else if word_attribute(w) is Some {
        StyleModel { attributes: st.attributes.push(word_attribute(w)->0), ..st }
    } else if w.len() >= 3 && w.subrange(0, 3) == "fg:"@ {
        StyleModel { fg: Some(w.subrange(3, w.len() as int)), ..st }
    } else if w.len() >= 3 && w.subrange(0, 3) == "bg:"@ {
        StyleModel { bg: Some(w.subrange(3, w.len() as int)), ..st }
    } else {
        StyleModel { fg: Some(w), ..st }
    }
}

pub open spec fn is_blank(c: char) -> bool {
    c == ' ' || c == '\t' || c == '\n' || c == '\r'
}

/// The word that ends a scan, applied where it is not empty.
pub open spec fn flush_word(st: StyleModel, w: Seq<char>) -> StyleModel {
    if w.len() == 0 {
        st
    } else {
        apply_word(st, w)
    }
}

/// The words of `s` from `ws` on applied in order, where the current word
/// began at `ws` and the scan stands at `i`.
pub open spec fn scan_words(st: StyleModel, s: Seq<char>, ws: int, i: int) -> StyleModel
    decreases s.len() - i,
{
    if i >= s.len() {
        flush_word(st, s.subrange(ws, s.len() as int))
    } else if is_blank(s[i]) {
        scan_words(flush_word(st, s.subrange(ws, i)), s, i + 1, i + 1)
    } else {
        scan_words(st, s, ws, i + 1)
    }
}

/// A style string (blank-separated words) applied to a style.
pub open spec fn apply_style_string(st: StyleModel, s: Seq<char>) -> StyleModel {
    scan_words(st, s, 0, 0)
}

impl Style {
    /// The style with no color and no attribute.
    pub fn plain() -> (r: Style)
        ensures
            r@ == plain_style(),
    {
        Style { fg: None, bg: None, attributes: Vec::new() }
    }

    /// A copy of this style.
    pub fn duplicate(&self) -> (r: Style)
        ensures
            r@ == self@,
    {
        let mut attributes: Vec<Attribute> = Vec::new();
        let mut i: usize = 0;
        while i < self.attributes.len()
            invariant
                i <= self.attributes@.len(),
                attributes@ == self.attributes@.subrange(0, i as int),
            decreases self.attributes@.len() - i,
        {
            attributes.push(self.attributes[i]);
            i = i + 1;
            assert(attributes@ =~= self.attributes@.subrange(0, i as int));
        }
        assert(attributes@ =~= self.attributes@);
        let fg = match &self.fg {
            Some(s) => Some(s.clone()),
            None => None,
        };
        let bg = match &self.bg {
            Some(s) => Some(s.clone()),
            None => None,
        };
        Style { fg, bg, attributes }
    }

    /// Applies one style word.
    pub fn apply_word(&mut self, w: &str)
        ensures
            final(self)@ == apply_word(old(self)@, w@),
    {
        if str_eq(w, "none") {
            *self = Style::plain();
            return;
        }
        match word_attribute_of(w) {
            Some(a) => {
                self.attributes.push(a);
                return;
            },
            None => {},
        }
        let n = w.unicode_len();
        if n >= 3 {
            let head = w.substring_char(0, 3);
            if str_eq(head, "fg:") {
                self.fg = Some(w.substring_char(3, n).to_owned());
                return;
            }
            if str_eq(head, "bg:") {
                self.bg = Some(w.substring_char(3, n).to_owned());
                return;
            }
        }
        self.fg = Some(w.to_owned());
    }

    /// Applies each blank-separated word of a style string, in order.
    pub fn apply_style_string(&mut self, s: &str)
        ensures
            final(self)@ == apply_style_string(old(self)@, s@),
    {
        let n = s.unicode_len();
        let mut ws: usize = 0;
        let mut i: usize = 0;
        while i < n
            invariant
                n == s@.len(),
                ws <= i <= n,
                apply_style_string(old(self)@, s@) == scan_words(self@, s@, ws as int, i as int),
            decreases n - i,
        {
            if is_blank_char(s.get_char(i)) {
                if ws < i {
                    self.apply_word(s.substring_char(ws, i));
                }
                ws = i + 1;
            }
            i = i + 1;
        }
        if ws < n {
            self.apply_word(s.substring_char(ws, n));
        }
    }
}

fn is_blank_char(c: char) -> (r: bool)
    ensures
        r == is_blank(c),
{
    c == ' ' || c == '\t' || c == '\n' || c == '\r'
}

/// The attribute that a style word names, if it names one.
fn word_attribute_of(w: &str) -> (r: Option<Attribute>)
    ensures
        r == word_attribute(w@),
{
    if str_eq(w, "bold") {
        Some(Attribute::Bold)
    } else if str_eq(w, "italic") {
        Some(Attribute::Italic)
    } else if str_eq(w, "underline") {
        Some(Attribute::Underline)
    } else if str_eq(w, "dimmed") {
        Some(Attribute::Dimmed)
    } else if str_eq(w, "inverted") {
        Some(Attribute::Inverted)
    } else if str_eq(w, "blink") {
        Some(Attribute::Blink)
    } else if str_eq(w, "hidden") {
        Some(Attribute::Hidden)
    } else if str_eq(w, "strikethrough") {
        Some(Attribute::Strikethrough)
    } else {
        None
    }
}

proof fn lemma_scan_single_word(st: StyleModel, w: Seq<char>, i: int)
    requires
        0 <= i <= w.len(),
        forall|k: int| 0 <= k < w.len() ==> !is_blank(#[trigger] w[k]),
    ensures
        scan_words(st, w, 0, i) == flush_word(st, w),
    decreases w.len() - i,
{
    if i < w.len() {
        lemma_scan_single_word(st, w, i + 1);
    } else {
        assert(w.subrange(0, w.len() as int) =~= w);
    }
}

/// A style string of one color word, applied over any style, sets that
/// foreground color and keeps the rest: where an inner style names a color
/// it overrides the color of the style it is applied over.
pub proof fn lemma_color_word_overrides(st: StyleModel, w: Seq<char>)
    requires
        w.len() > 0,
        forall|k: int| 0 <= k < w.len() ==> !is_blank(#[trigger] w[k]),
        w != "none"@,
        word_attribute(w) is None,
        !(w.len() >= 3 && w.subrange(0, 3) == "bg:"@),
    ensures
        apply_style_string(st, w).bg == st.bg,
        apply_style_string(st, w).attributes == st.attributes,
        apply_style_string(st, w).fg == Some(
            if w.len() >= 3 && w.subrange(0, 3) == "fg:"@ {
                w.subrange(3, w.len() as int)
            } else {
                w
            },
        ),
{
    lemma_scan_single_word(st, w, 0);
}

} // verus!
