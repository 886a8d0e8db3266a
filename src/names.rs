//! Character-sequence order and sorted, duplicate-free lists of names.
use vstd::prelude::*;

verus! {

/// Lexicographic order on character sequences, by code point; this is the
/// order of `str`'s `Ord`.
pub open spec fn lex_lt(a: Seq<char>, b: Seq<char>) -> bool
    decreases a.len(),
{
    if b.len() == 0 {
        false
    } else if a.len() == 0 {
        true
    } else if a[0] != b[0] {
        (a[0] as int) < (b[0] as int)
    } else {
        lex_lt(a.drop_first(), b.drop_first())
    }
}

pub proof fn lemma_lex_irreflexive(a: Seq<char>)
    ensures
        !lex_lt(a, a),
    decreases a.len(),
{
    if a.len() > 0 {
        lemma_lex_irreflexive(a.drop_first());
    }
}

pub proof fn lemma_lex_transitive(a: Seq<char>, b: Seq<char>, c: Seq<char>)
    requires
        lex_lt(a, b),
        lex_lt(b, c),
    ensures
        lex_lt(a, c),
    decreases a.len(),
{
    if a.len() > 0 && a[0] == b[0] && b[0] == c[0] {
        lemma_lex_transitive(a.drop_first(), b.drop_first(), c.drop_first());
    }
}

pub proof fn lemma_lex_total(a: Seq<char>, b: Seq<char>)
    requires
        a != b,
    ensures
        lex_lt(a, b) || lex_lt(b, a),
    decreases a.len(),
{
    if a.len() > 0 && b.len() > 0 {
        if a[0] == b[0] {
            if a.drop_first() == b.drop_first() {
                assert(a =~= seq![a[0]] + a.drop_first());
                assert(b =~= seq![b[0]] + b.drop_first());
            }
            lemma_lex_total(a.drop_first(), b.drop_first());
        } else {
            assert((a[0] as int) != (b[0] as int));
        }
    } else if a.len() == 0 && b.len() == 0 {
        assert(a =~= b);
    }
}

/// The names held by a list of strings.
pub open spec fn name_set(v: Seq<String>) -> Set<Seq<char>> {
    Set::new(|x: Seq<char>| exists|i: int| 0 <= i < v.len() && v[i]@ == x)
}

/// Each name comes before every later one: sorted, and no name twice.
pub open spec fn strictly_sorted(v: Seq<String>) -> bool {
    forall|i: int, j: int| 0 <= i < j < v.len() ==> lex_lt(#[trigger] v[i]@, #[trigger] v[j]@)
}

/// Compares two strings in lexicographic order.
pub fn str_lt(a: &str, b: &str) -> (r: bool)
    ensures
        r == lex_lt(a@, b@),
{
    let la = a.unicode_len();
    let lb = b.unicode_len();
    let mut i: usize = 0;
    assert(a@.skip(0) =~= a@);
    assert(b@.skip(0) =~= b@);
    while i < la && i < lb
        invariant
            la == a@.len(),
            lb == b@.len(),
            i <= la,
            i <= lb,
            lex_lt(a@, b@) == lex_lt(a@.skip(i as int), b@.skip(i as int)),
        decreases la - i,
    {
        let ca = a.get_char(i);
        let cb = b.get_char(i);
        if ca != cb {
            return (ca as u32) < (cb as u32);
        }
        assert(a@.skip(i as int).drop_first() =~= a@.skip(i + 1));
        assert(b@.skip(i as int).drop_first() =~= b@.skip(i + 1));
        i = i + 1;
    }
    i < lb
}

/// Adds a name to a sorted list, unless it is there already.
pub fn insert_name(v: &mut Vec<String>, s: String)
    requires
        strictly_sorted(old(v)@),
    ensures
        strictly_sorted(final(v)@),
        name_set(final(v)@) == name_set(old(v)@).insert(s@),
{
    let n = v.len();
    let mut i: usize = 0;
    while i < n && str_lt(v[i].as_str(), s.as_str())
        invariant
            n == v@.len(),
            i <= n,
            forall|k: int| 0 <= k < i ==> lex_lt(#[trigger] v@[k]@, s@),
        decreases n - i,
    {
        i = i + 1;
    }
    if i < n && str_eq(v[i].as_str(), s.as_str()) {
        assert(name_set(v@) =~= name_set(v@).insert(s@)) by {
            assert(v@[i as int]@ == s@);
        }
        return;
    }
    let ghost pre = v@;
    proof {
        if i < n {
            lemma_lex_total(pre[i as int]@, s@);
        }
    }
    v.insert(i, s);
    assert forall|p: int, q: int| 0 <= p < q < v@.len() implies lex_lt(
        #[trigger] v@[p]@,
        #[trigger] v@[q]@,
    ) by {
        if q == i {
        } else if p == i {
            if q > i + 1 {
                lemma_lex_transitive(v@[p]@, v@[i + 1]@, v@[q]@);
            }
        } else if p < i && q > i {
        }
    }
    assert(name_set(v@) =~= name_set(pre).insert(v@[i as int]@)) by {
        assert forall|x: Seq<char>| name_set(pre).insert(v@[i as int]@).contains(x) implies name_set(
            v@,
        ).contains(x) by {
            if x != v@[i as int]@ {
                let k = choose|k: int| 0 <= k < pre.len() && pre[k]@ == x;
                if k < i {
                    assert(v@[k]@ == x);
                } else {
                    assert(v@[k + 1]@ == x);
                }
            }
        }
        assert forall|x: Seq<char>| name_set(v@).contains(x) implies name_set(pre).insert(
            v@[i as int]@,
        ).contains(x) by {
            let k = choose|k: int| 0 <= k < v@.len() && v@[k]@ == x;
            if k < i {
                assert(pre[k]@ == x);
            } else if k > i {
                assert(pre[k - 1]@ == x);
            }
        }
    }
}

/// Whether two strings hold the same characters.
pub fn str_eq(a: &str, b: &str) -> (r: bool)
    ensures
        r == (a@ == b@),
{
    let la = a.unicode_len();
    let lb = b.unicode_len();
    if la != lb {
        return false;
    }
    let mut i: usize = 0;
    while i < la
        invariant
            la == a@.len(),
            lb == b@.len(),
            la == lb,
            i <= la,
            forall|k: int| 0 <= k < i ==> a@[k] == b@[k],
        decreases la - i,
    {
        if a.get_char(i) != b.get_char(i) {
            return false;
        }
        i = i + 1;
    }
    assert(a@ =~= b@);
    true
}

proof fn lemma_first_is_least(a: Seq<String>, x: Seq<char>)
    requires
        strictly_sorted(a),
        a.len() > 0,
        name_set(a).contains(x),
        x != a[0]@,
    ensures
        lex_lt(a[0]@, x),
{
    let k = choose|k: int| 0 <= k < a.len() && a[k]@ == x;
    assert(k != 0);
}

proof fn lemma_drop_first_names(a: Seq<String>)
    requires
        strictly_sorted(a),
        a.len() > 0,
    ensures
        strictly_sorted(a.drop_first()),
        name_set(a.drop_first()) == name_set(a).remove(a[0]@),
{
    assert forall|i: int, j: int| 0 <= i < j < a.drop_first().len() implies lex_lt(
        #[trigger] a.drop_first()[i]@,
        #[trigger] a.drop_first()[j]@,
    ) by {
        assert(a.drop_first()[i] == a[i + 1]);
        assert(a.drop_first()[j] == a[j + 1]);
    }
    assert forall|x: Seq<char>| name_set(a).remove(a[0]@).contains(x) implies name_set(
        a.drop_first(),
    ).contains(x) by {
        let k = choose|k: int| 0 <= k < a.len() && a[k]@ == x;
        assert(a.drop_first()[k - 1] == a[k]);
    }
    assert forall|x: Seq<char>| name_set(a.drop_first()).contains(x) implies name_set(
        a,
    ).remove(a[0]@).contains(x) by {
        let k = choose|k: int| 0 <= k < a.drop_first().len() && a.drop_first()[k]@ == x;
        assert(a.drop_first()[k] == a[k + 1]);
        assert(lex_lt(a[0]@, a[k + 1]@));
        lemma_lex_irreflexive(a[0]@);
    }
    assert(name_set(a.drop_first()) =~= name_set(a).remove(a[0]@));
}

/// Two sorted lists without repeats that hold the same names hold them in
/// the same order: such a list is determined by its names.
pub proof fn lemma_sorted_names_unique(a: Seq<String>, b: Seq<String>)
    requires
        strictly_sorted(a),
        strictly_sorted(b),
        name_set(a) == name_set(b),
    ensures
        a.len() == b.len(),
        forall|i: int| 0 <= i < a.len() ==> #[trigger] a[i]@ == b[i]@,
    decreases a.len(),
{
    if a.len() == 0 || b.len() == 0 {
        if a.len() > 0 {
            assert(name_set(a).contains(a[0]@));
        }
        if b.len() > 0 {
            assert(name_set(b).contains(b[0]@));
        }
    } else {
        assert(name_set(a).contains(a[0]@));
        assert(name_set(b).contains(b[0]@));
        if a[0]@ != b[0]@ {
            lemma_first_is_least(a, b[0]@);
            lemma_first_is_least(b, a[0]@);
            lemma_lex_transitive(a[0]@, b[0]@, a[0]@);
            lemma_lex_irreflexive(a[0]@);
        }
        lemma_drop_first_names(a);
        lemma_drop_first_names(b);
        lemma_sorted_names_unique(a.drop_first(), b.drop_first());
        assert forall|i: int| 0 <= i < a.len() implies #[trigger] a[i]@ == b[i]@ by {
            if i > 0 {
                assert(a.drop_first()[i - 1] == a[i]);
                assert(b.drop_first()[i - 1] == b[i]);
            }
        }
    }
}

} // verus!
