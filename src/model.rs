//! The syntax tree of a format template, and the variables it names.
use vstd::prelude::*;
use crate::names::{insert_name, name_set, strictly_sorted};

verus! {

/// A type that names variables: the names, sorted and each once.
pub trait VariableHolder {
    spec fn variables(&self) -> Set<Seq<char>>;

    fn get_variables(&self) -> (r: Vec<String>)
        ensures
            strictly_sorted(r@),
            name_set(r@) == self.variables(),
    ;
}

/// A type that names style variables: the names, sorted and each once.
pub trait StyleVariableHolder {
    spec fn style_variables(&self) -> Set<Seq<char>>;

    fn get_style_variables(&self) -> (r: Vec<String>)
        ensures
            strictly_sorted(r@),
            name_set(r@) == self.style_variables(),
    ;
}

/// A group whose content is rendered in the style that `style` gives.
pub struct TextGroup {
    pub format: Vec<FormatElement>,
    pub style: Vec<StyleElement>,
}

/// A part of a link's target: literal text, or a variable's value.
#[derive(Clone)]
pub enum URLElement {
    Text(String),
    Variable(String),
}

/// A hyperlink: `format` renders its label, `url` builds its target.
pub struct Link {
    pub format: Vec<FormatElement>,
    pub url: Vec<URLElement>,
}

/// A node of a format template.
pub enum FormatElement {
    Text(String),
    Variable(String),
    Link(Link),
    TextGroup(TextGroup),
    Conditional(Vec<FormatElement>),
}

/// A part of a style: a literal style string, or a style variable.
#[derive(Clone)]
pub enum StyleElement {
    Text(String),
    Variable(String),
}

/// The variable names in a sequence of link-target parts.
pub open spec fn url_vars(s: Seq<URLElement>) -> Set<Seq<char>>
    decreases s.len(),
{
    if s.len() == 0 {
        Set::empty()
    } else {
        url_vars(s.drop_last()) + match s.last() {
            URLElement::Variable(v) => set![v@],
            URLElement::Text(_) => Set::empty(),
        }
    }
}

/// The style variable names in a sequence of style parts.
pub open spec fn style_vars(s: Seq<StyleElement>) -> Set<Seq<char>>
    decreases s.len(),
{
    if s.len() == 0 {
        Set::empty()
    } else {
        style_vars(s.drop_last()) + match s.last() {
            StyleElement::Variable(v) => set![v@],
            StyleElement::Text(_) => Set::empty(),
        }
    }
}

/// The variable names that one element reaches: its own, those of a link's
/// target, those of a group's style, and those of every nested content.
pub open spec fn element_vars(e: FormatElement) -> Set<Seq<char>>
    decreases e,
{
    match e {
        FormatElement::Variable(v) => set![v@],
        FormatElement::Link(l) => format_vars(l.format@) + url_vars(l.url@),
        FormatElement::TextGroup(g) => format_vars(g.format@) + style_vars(g.style@),
        FormatElement::Conditional(f) => format_vars(f@),
        FormatElement::Text(_) => Set::empty(),
    }
}

/// The variable names reachable in a sequence of elements.
pub open spec fn format_vars(s: Seq<FormatElement>) -> Set<Seq<char>>
    decreases s,
{
    if s.len() == 0 {
        Set::empty()
    } else {
        format_vars(s.drop_last()) + element_vars(s.last())
    }
}

/// The style variable names that one element reaches: those in a group's
/// style, and in every nested content.
pub open spec fn element_style_vars(e: FormatElement) -> Set<Seq<char>>
    decreases e,
{
    match e {
        FormatElement::Link(l) => format_style_vars(l.format@),
        FormatElement::TextGroup(g) => style_vars(g.style@) + format_style_vars(g.format@),
        FormatElement::Conditional(f) => format_style_vars(f@),
        _ => Set::empty(),
    }
}

/// The style variable names reachable in a sequence of elements.
pub open spec fn format_style_vars(s: Seq<FormatElement>) -> Set<Seq<char>>
    decreases s,
{
    if s.len() == 0 {
        Set::empty()
    } else {
        format_style_vars(s.drop_last()) + element_style_vars(s.last())
    }
}

/// Adds the variable names of link-target parts to a sorted list.
fn collect_url_vars(elems: &Vec<URLElement>, acc: &mut Vec<String>)
    requires
        strictly_sorted(old(acc)@),
    ensures
        strictly_sorted(final(acc)@),
        name_set(final(acc)@) == name_set(old(acc)@) + url_vars(elems@),
{
    let ghost start = acc@;
    let mut i: usize = 0;
    assert(elems@.subrange(0, 0) =~= Seq::<URLElement>::empty());
    assert(name_set(acc@) =~= name_set(start) + url_vars(elems@.subrange(0, 0)));
    while i < elems.len()
        invariant
            i <= elems@.len(),
            strictly_sorted(acc@),
            name_set(acc@) == name_set(start) + url_vars(elems@.subrange(0, i as int)),
        decreases elems@.len() - i,
    {
        assert(elems@.subrange(0, i + 1).drop_last() =~= elems@.subrange(0, i as int));
        match &elems[i] {
            URLElement::Variable(v) => insert_name(acc, v.clone()),
            URLElement::Text(_) => {},
        }
        assert(name_set(acc@) =~= name_set(start) + url_vars(elems@.subrange(0, i + 1)));
        i = i + 1;
    }
    assert(elems@.subrange(0, i as int) =~= elems@);
}

/// Adds the style variable names of style parts to a sorted list.
fn collect_style_vars(elems: &Vec<StyleElement>, acc: &mut Vec<String>)
    requires
        strictly_sorted(old(acc)@),
    ensures
        strictly_sorted(final(acc)@),
        name_set(final(acc)@) == name_set(old(acc)@) + style_vars(elems@),
{
    let ghost start = acc@;
    let mut i: usize = 0;
    assert(elems@.subrange(0, 0) =~= Seq::<StyleElement>::empty());
    assert(name_set(acc@) =~= name_set(start) + style_vars(elems@.subrange(0, 0)));
    while i < elems.len()
        invariant
            i <= elems@.len(),
            strictly_sorted(acc@),
            name_set(acc@) == name_set(start) + style_vars(elems@.subrange(0, i as int)),
        decreases elems@.len() - i,
    {
        assert(elems@.subrange(0, i + 1).drop_last() =~= elems@.subrange(0, i as int));
        match &elems[i] {
            StyleElement::Variable(v) => insert_name(acc, v.clone()),
            StyleElement::Text(_) => {},
        }
        assert(name_set(acc@) =~= name_set(start) + style_vars(elems@.subrange(0, i + 1)));
        i = i + 1;
    }
    assert(elems@.subrange(0, i as int) =~= elems@);
}

/// Adds the variable names that one element reaches to a sorted list.
fn collect_element_vars(e: &FormatElement, acc: &mut Vec<String>)
    requires
        strictly_sorted(old(acc)@),
    ensures
        strictly_sorted(final(acc)@),
        name_set(final(acc)@) == name_set(old(acc)@) + element_vars(*e),
    decreases e,
{
    let ghost start = acc@;
    match e {
        FormatElement::Variable(v) => insert_name(acc, v.clone()),
        FormatElement::Link(l) => {
            collect_format_vars(&l.format, acc);
            collect_url_vars(&l.url, acc);
        },
        FormatElement::TextGroup(g) => {
            collect_format_vars(&g.format, acc);
            collect_style_vars(&g.style, acc);
        },
        FormatElement::Conditional(f) => collect_format_vars(f, acc),
        FormatElement::Text(_) => {},
    }
    assert(name_set(acc@) =~= name_set(start) + element_vars(*e));
}

/// Adds the variable names reachable in a sequence of elements to a sorted list.
fn collect_format_vars(elems: &Vec<FormatElement>, acc: &mut Vec<String>)
    requires
        strictly_sorted(old(acc)@),
    ensures
        strictly_sorted(final(acc)@),
        name_set(final(acc)@) == name_set(old(acc)@) + format_vars(elems@),
    decreases elems,
{
    let ghost start = acc@;
    let mut i: usize = 0;
    assert(elems@.subrange(0, 0) =~= Seq::<FormatElement>::empty());
    assert(name_set(acc@) =~= name_set(start) + format_vars(elems@.subrange(0, 0)));
    while i < elems.len()
        invariant
            i <= elems@.len(),
            strictly_sorted(acc@),
            name_set(acc@) == name_set(start) + format_vars(elems@.subrange(0, i as int)),
        decreases elems@.len() - i,
    {
        assert(elems@.subrange(0, i + 1).drop_last() =~= elems@.subrange(0, i as int));
        proof {
            vstd::std_specs::vec::axiom_vec_index_decreases(*elems, i as int);
        }
        collect_element_vars(&elems[i], acc);
        assert(name_set(acc@) =~= name_set(start) + format_vars(elems@.subrange(0, i + 1)));
        i = i + 1;
    }
    assert(elems@.subrange(0, i as int) =~= elems@);
}

/// Adds the style variable names that one element reaches to a sorted list.
fn collect_element_style_vars(e: &FormatElement, acc: &mut Vec<String>)
    requires
        strictly_sorted(old(acc)@),
    ensures
        strictly_sorted(final(acc)@),
        name_set(final(acc)@) == name_set(old(acc)@) + element_style_vars(*e),
    decreases e,
{
    let ghost start = acc@;
    match e {
        FormatElement::Link(l) => collect_format_style_vars(&l.format, acc),
        FormatElement::TextGroup(g) => {
            collect_style_vars(&g.style, acc);
            collect_format_style_vars(&g.format, acc);
        },
        FormatElement::Conditional(f) => collect_format_style_vars(f, acc),
        _ => {},
    }
    assert(name_set(acc@) =~= name_set(start) + element_style_vars(*e));
}

/// Adds the style variable names reachable in a sequence of elements to a
/// sorted list.
fn collect_format_style_vars(elems: &Vec<FormatElement>, acc: &mut Vec<String>)
    requires
        strictly_sorted(old(acc)@),
    ensures
        strictly_sorted(final(acc)@),
        name_set(final(acc)@) == name_set(old(acc)@) + format_style_vars(elems@),
    decreases elems,
{
    let ghost start = acc@;
    let mut i: usize = 0;
    assert(elems@.subrange(0, 0) =~= Seq::<FormatElement>::empty());
    assert(name_set(acc@) =~= name_set(start) + format_style_vars(elems@.subrange(0, 0)));
    while i < elems.len()
        invariant
            i <= elems@.len(),
            strictly_sorted(acc@),
            name_set(acc@) == name_set(start) + format_style_vars(elems@.subrange(0, i as int)),
        decreases elems@.len() - i,
    {
        assert(elems@.subrange(0, i + 1).drop_last() =~= elems@.subrange(0, i as int));
        proof {
            vstd::std_specs::vec::axiom_vec_index_decreases(*elems, i as int);
        }
        collect_element_style_vars(&elems[i], acc);
        assert(name_set(acc@) =~= name_set(start) + format_style_vars(
            elems@.subrange(0, i + 1),
        ));
        i = i + 1;
    }
    assert(elems@.subrange(0, i as int) =~= elems@);
}

proof fn lemma_empty_names()
    ensures
        strictly_sorted(Seq::<String>::empty()),
        name_set(Seq::<String>::empty()) == Set::<Seq<char>>::empty(),
{
    assert(name_set(Seq::<String>::empty()) =~= Set::<Seq<char>>::empty());
}

impl VariableHolder for FormatElement {
    open spec fn variables(&self) -> Set<Seq<char>> {
        element_vars(*self)
    }

    fn get_variables(&self) -> (r: Vec<String>) {
        let mut r: Vec<String> = Vec::new();
        proof {
            lemma_empty_names();
        }
        collect_element_vars(self, &mut r);
        assert(name_set(r@) =~= element_vars(*self));
        r
    }
}

impl VariableHolder for Vec<FormatElement> {
    open spec fn variables(&self) -> Set<Seq<char>> {
        format_vars(self@)
    }

    fn get_variables(&self) -> (r: Vec<String>) {
        let mut r: Vec<String> = Vec::new();
        proof {
            lemma_empty_names();
        }
        collect_format_vars(self, &mut r);
        assert(name_set(r@) =~= format_vars(self@));
        r
    }
}

impl VariableHolder for Vec<URLElement> {
    open spec fn variables(&self) -> Set<Seq<char>> {
        url_vars(self@)
    }

    fn get_variables(&self) -> (r: Vec<String>) {
        let mut r: Vec<String> = Vec::new();
        proof {
            lemma_empty_names();
        }
        collect_url_vars(self, &mut r);
        assert(name_set(r@) =~= url_vars(self@));
        r
    }
}

impl<'a> VariableHolder for &'a [FormatElement] {
    open spec fn variables(&self) -> Set<Seq<char>> {
        format_vars(self@)
    }

    fn get_variables(&self) -> (r: Vec<String>) {
        let mut r: Vec<String> = Vec::new();
        proof {
            lemma_empty_names();
        }
        let mut i: usize = 0;
        assert(self@.subrange(0, 0) =~= Seq::<FormatElement>::empty());
        assert(name_set(r@) =~= format_vars(self@.subrange(0, 0)));
        while i < self.len()
            invariant
                i <= self@.len(),
                strictly_sorted(r@),
                name_set(r@) == format_vars(self@.subrange(0, i as int)),
            decreases self@.len() - i,
        {
            assert(self@.subrange(0, i + 1).drop_last() =~= self@.subrange(0, i as int));
            collect_element_vars(&self[i], &mut r);
            i = i + 1;
        }
        assert(self@.subrange(0, i as int) =~= self@);
        r
    }
}

impl<'a> VariableHolder for &'a [URLElement] {
    open spec fn variables(&self) -> Set<Seq<char>> {
        url_vars(self@)
    }

    fn get_variables(&self) -> (r: Vec<String>) {
        let mut r: Vec<String> = Vec::new();
        proof {
            lemma_empty_names();
        }
        let mut i: usize = 0;
        assert(self@.subrange(0, 0) =~= Seq::<URLElement>::empty());
        assert(name_set(r@) =~= url_vars(self@.subrange(0, 0)));
        while i < self.len()
            invariant
                i <= self@.len(),
                strictly_sorted(r@),
                name_set(r@) == url_vars(self@.subrange(0, i as int)),
            decreases self@.len() - i,
        {
            assert(self@.subrange(0, i + 1).drop_last() =~= self@.subrange(0, i as int));
            if let URLElement::Variable(v) = &self[i] {
                insert_name(&mut r, v.clone());
            }
            assert(name_set(r@) =~= url_vars(self@.subrange(0, i + 1)));
            i = i + 1;
        }
        assert(self@.subrange(0, i as int) =~= self@);
        r
    }
}

impl VariableHolder for URLElement {
    open spec fn variables(&self) -> Set<Seq<char>> {
        match self {
            URLElement::Variable(v) => set![v@],
            URLElement::Text(_) => Set::empty(),
        }
    }

    fn get_variables(&self) -> (r: Vec<String>) {
        let mut r: Vec<String> = Vec::new();
        proof {
            lemma_empty_names();
        }
        if let URLElement::Variable(v) = self {
            insert_name(&mut r, v.clone());
        }
        assert(name_set(r@) =~= self.variables());
        r
    }
}

impl StyleVariableHolder for StyleElement {
    open spec fn style_variables(&self) -> Set<Seq<char>> {
        match self {
            StyleElement::Variable(v) => set![v@],
            StyleElement::Text(_) => Set::empty(),
        }
    }

    fn get_style_variables(&self) -> (r: Vec<String>) {
        let mut r: Vec<String> = Vec::new();
        proof {
            lemma_empty_names();
        }
        if let StyleElement::Variable(v) = self {
            insert_name(&mut r, v.clone());
        }
        assert(name_set(r@) =~= self.style_variables());
        r
    }
}

impl StyleVariableHolder for Vec<StyleElement> {
    open spec fn style_variables(&self) -> Set<Seq<char>> {
        style_vars(self@)
    }

    fn get_style_variables(&self) -> (r: Vec<String>) {
        let mut r: Vec<String> = Vec::new();
        proof {
            lemma_empty_names();
        }
        collect_style_vars(self, &mut r);
        assert(name_set(r@) =~= style_vars(self@));
        r
    }
}

impl StyleVariableHolder for Vec<FormatElement> {
    open spec fn style_variables(&self) -> Set<Seq<char>> {
        format_style_vars(self@)
    }

    fn get_style_variables(&self) -> (r: Vec<String>) {
        let mut r: Vec<String> = Vec::new();
        proof {
            lemma_empty_names();
        }
        collect_format_style_vars(self, &mut r);
        assert(name_set(r@) =~= format_style_vars(self@));
        r
    }
}

/// Extracting the variables of one unchanged tree twice gives the same names
/// in the same order, and so does extracting its style variables.
pub proof fn lemma_extraction_repeatable(t: Vec<FormatElement>, r1: Vec<String>, r2: Vec<String>)
    requires
        strictly_sorted(r1@),
        strictly_sorted(r2@),
        name_set(r1@) == format_vars(t@) && name_set(r2@) == format_vars(t@) || name_set(r1@)
            == format_style_vars(t@) && name_set(r2@) == format_style_vars(t@),
    ensures
        r1@.len() == r2@.len(),
        forall|i: int| 0 <= i < r1@.len() ==> #[trigger] r1@[i]@ == r2@[i]@,
{
    crate::names::lemma_sorted_names_unique(r1@, r2@);
}

} // verus!
