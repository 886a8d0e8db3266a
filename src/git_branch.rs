//! The git branch settings, and the display symbol of a remote's host.
use vstd::prelude::*;
use indexmap::IndexMap;

verus! {

#[verifier::external_type_specification]
#[verifier::external_body]
#[verifier::reject_recursive_types(K)]
#[verifier::reject_recursive_types(V)]
#[verifier::reject_recursive_types(S)]
pub struct ExIndexMap<K, V, S>(IndexMap<K, V, S>);

/// What a table of remote symbols maps each host or domain suffix to.
pub uninterp spec fn symbol_entries(m: IndexMap<String, String>) -> Map<Seq<char>, Seq<char>>;

/// The keys of a table of remote symbols, in the table's order.
pub uninterp spec fn symbol_keys(m: IndexMap<String, String>) -> Seq<Seq<char>>;

/// The text that percent-decoding gives, or `None` where it is not UTF-8.
pub uninterp spec fn percent_decoded(s: Seq<char>) -> Option<Seq<char>>;

/// The host of a URL, or `None` where the text is no URL or has no host.
pub uninterp spec fn url_host(s: Seq<char>) -> Option<Seq<char>>;

/// Relies on `IndexMap::new`: a new map holds no entry and no key.
#[verifier::external_body]
fn new_symbol_table() -> (r: IndexMap<String, String>)
    ensures
        symbol_entries(r).dom() == Set::<Seq<char>>::empty(),
        symbol_keys(r).len() == 0,
{
    IndexMap::new()
}

/// Relies on `IndexMap::insert`: afterwards the key maps to the value, and
/// the other entries stay; a new key goes last in the order, a key that was
/// there keeps its place.
#[verifier::external_body]
fn insert_symbol(m: &mut IndexMap<String, String>, k: String, v: String)
    ensures
        symbol_entries(*final(m)) == symbol_entries(*old(m)).insert(k@, v@),
        symbol_entries(*old(m)).contains_key(k@) ==> symbol_keys(*final(m)) == symbol_keys(*old(m)),
        !symbol_entries(*old(m)).contains_key(k@) ==> symbol_keys(*final(m)) == symbol_keys(
            *old(m),
        ).push(k@),
{
    m.insert(k, v);
}

/// Relies on `IndexMap::get`: the value of the key, if the map holds it.
#[verifier::external_body]
fn lookup_symbol(m: &IndexMap<String, String>, k: &str) -> (r: Option<String>)
    ensures
        r is Some <==> symbol_entries(*m).contains_key(k@),
        r is Some ==> r->0@ == symbol_entries(*m)[k@],
{
    m.get(k).cloned()
}

/// Relies on `urlencoding::decode`: percent-escapes are decoded; a text
/// without `%` comes back as it is.
#[verifier::external_body]
fn percent_decode(s: &str) -> (r: Option<String>)
    ensures
        opt_view(r) == percent_decoded(s@),
        !s@.contains('%') ==> opt_view(r) == Some(s@),
{
    urlencoding::decode(s).ok().map(|d| d.into_owned())
}

/// Relies on `url::Url::parse` and `url::Url::host_str`: the host of the
/// parsed URL.
#[verifier::external_body]
fn parse_host(s: &str) -> (r: Option<String>)
    ensures
        opt_view(r) == url_host(s@),
{
    match url::Url::parse(s) {
        Ok(u) => u.host_str().map(|h| h.to_owned()),
        Err(_) => None,
    }
}

pub open spec fn opt_view(o: Option<String>) -> Option<Seq<char>> {
    match o {
        Some(s) => Some(s@),
        None => None,
    }
}

/// The index of the first `.` at or after `i`.
pub open spec fn find_dot_from(s: Seq<char>, i: int) -> Option<int>
    decreases s.len() - i,
{
    if i < 0 || i >= s.len() {
        None
    } else if s[i] == '.' {
        Some(i)
    } else {
        find_dot_from(s, i + 1)
    }
}

pub proof fn lemma_find_dot_bounds(s: Seq<char>, i: int)
    ensures
        find_dot_from(s, i) matches Some(k) ==> 0 <= i <= k < s.len() && s[k] == '.',
    decreases s.len() - i,
{
    if 0 <= i < s.len() && s[i] != '.' {
        lemma_find_dot_bounds(s, i + 1);
    }
}

/// The symbol of the longest domain suffix of `h` that starts at or after
/// `start` (a `.`), trying the suffixes from the longest down.
pub open spec fn suffix_symbol(t: Map<Seq<char>, Seq<char>>, h: Seq<char>, start: int) -> Option<
    Seq<char>,
>
    decreases h.len() - start,
    via suffix_symbol_decreases
{
    if start < 0 || start >= h.len() {
        None
    } else if t.contains_key(h.subrange(start, h.len() as int)) {
        Some(t[h.subrange(start, h.len() as int)])
    } else {
        match find_dot_from(h, start + 1) {
            Some(k) => suffix_symbol(t, h, k),
            None => None,
        }
    }
}

#[via_fn]
proof fn suffix_symbol_decreases(t: Map<Seq<char>, Seq<char>>, h: Seq<char>, start: int) {
    lemma_find_dot_bounds(h, start + 1);
}

/// The symbol of a host: the entry of the whole host, else that of its
/// longest domain suffix (from its first `.`) that the table holds.
pub open spec fn host_symbol(t: Map<Seq<char>, Seq<char>>, h: Seq<char>) -> Option<Seq<char>> {
    if t.contains_key(h) {
        Some(t[h])
    } else {
        match find_dot_from(h, 0) {
            Some(k) => suffix_symbol(t, h, k),
            None => None,
        }
    }
}

/// The symbol of a remote URL: decoded, parsed, and looked up by its host.
pub open spec fn remote_symbol(t: Map<Seq<char>, Seq<char>>, url: Seq<char>) -> Option<Seq<char>> {
    match percent_decoded(url) {
        Some(d) => match url_host(d) {
            Some(h) => host_symbol(t, h),
            None => None,
        },
        None => None,
    }
}

/// The index of the first `.` of `s` at or after `i`.
fn find_dot(s: &str, i: usize) -> (r: Option<usize>)
    ensures
        match r {
            Some(k) => find_dot_from(s@, i as int) == Some(k as int),
            None => find_dot_from(s@, i as int) is None,
        },
{
    let n = s.unicode_len();
    let mut j = i;
    while j < n
        invariant
            n == s@.len(),
            i <= j,
            find_dot_from(s@, i as int) == find_dot_from(s@, j as int),
        decreases n - j,
    {
        if s.get_char(j) == '.' {
            return Some(j);
        }
        j = j + 1;
    }
    None
}

/// The settings of the git branch module.
pub struct GitBranchConfig {
    pub format: String,
    pub symbol: String,
    pub style: String,
    pub truncation_length: i64,
    pub truncation_symbol: String,
    pub only_attached: bool,
    pub always_show_remote: bool,
    pub ignore_branches: Vec<String>,
    pub disabled: bool,
    pub remote_symbols: IndexMap<String, String>,
}

impl GitBranchConfig {
    /// The symbol configured for the host of a remote URL: the entry of the
    /// whole host if there is one, else that of its most specific domain
    /// suffix; `None` where the URL does not decode, parse or have a host.
    pub fn get_remote_symbol(&self, url: &str) -> (r: Option<String>)
        ensures
            opt_view(r) == remote_symbol(symbol_entries(self.remote_symbols), url@),
    {
        let decoded = match percent_decode(url) {
            Some(d) => d,
            None => return None,
        };
        let host = match parse_host(decoded.as_str()) {
            Some(h) => h,
            None => return None,
        };
        self.host_symbol(host.as_str())
    }

    /// The symbol configured for a host: the entry of the whole host if there
    /// is one, else that of the longest of its domain suffixes (each from a
    /// `.` on, starting at its first `.`) that has one.
    pub fn host_symbol(&self, host: &str) -> (r: Option<String>)
        ensures
            opt_view(r) == host_symbol(symbol_entries(self.remote_symbols), host@),
    {
        let ghost t = symbol_entries(self.remote_symbols);
        let found = lookup_symbol(&self.remote_symbols, host);
        if found.is_some() {
            return found;
        }
        let n = host.unicode_len();
        let mut start = match find_dot(host, 0) {
            Some(k) => k,
            None => return None,
        };
        proof {
            lemma_find_dot_bounds(host@, 0);
        }
        loop
            invariant
                n == host@.len(),
                start < n,
                host_symbol(t, host@) == suffix_symbol(t, host@, start as int),
                t == symbol_entries(self.remote_symbols),
            decreases n - start,
        {
            let suffix = host.substring_char(start, n);
            let found = lookup_symbol(&self.remote_symbols, suffix);
            if found.is_some() {
                return found;
            }
            match find_dot(host, start + 1) {
                Some(k) => {
                    proof {
                        lemma_find_dot_bounds(host@, start + 1);
                    }
                    start = k;
                },
                None => return None,
            }
        }
    }
}

/// The built-in symbols of well-known hosts and domains.
pub open spec fn default_remote_symbols() -> Map<Seq<char>, Seq<char>> {
    map![
        "bitbucket.org"@ => "\u{f171}"@,
        "github.com"@ => "\u{f09b}"@,
        "gitlab.com"@ => "\u{f296}"@,
        "gitlab.gnome.org"@ => "\u{f02ac}"@,
        ".googlesource.com"@ => "\u{f1a0}"@,
        "kernel.org"@ => "\u{f17c}"@,
        "launchpad.net"@ => "\u{f13c}"@,
    ]
}

/// The hosts and domains of the built-in symbols, in their order.
pub open spec fn default_remote_keys() -> Seq<Seq<char>> {
    seq![
        "bitbucket.org"@,
        "github.com"@,
        "gitlab.com"@,
        "gitlab.gnome.org"@,
        ".googlesource.com"@,
        "kernel.org"@,
        "launchpad.net"@,
    ]
}

impl Default for GitBranchConfig {
    fn default() -> (r: Self)
        ensures
            r.format@ == "on [$symbol$branch(:$remote_branch)]($style) "@,
            r.symbol@ == "\u{e0a0} "@,
            r.style@ == "bold purple"@,
            r.truncation_length == i64::MAX,
            r.truncation_symbol@ == "\u{2026}"@,
            !r.only_attached,
            !r.always_show_remote,
            r.ignore_branches@.len() == 0,
            !r.disabled,
            symbol_entries(r.remote_symbols) == default_remote_symbols(),
            symbol_keys(r.remote_symbols) == default_remote_keys(),
    {
        proof {
            reveal_strlit("bitbucket.org");
            reveal_strlit("github.com");
            reveal_strlit("gitlab.com");
            reveal_strlit("gitlab.gnome.org");
            reveal_strlit(".googlesource.com");
            reveal_strlit("kernel.org");
            reveal_strlit("launchpad.net");
        }
        let mut remote_symbols = new_symbol_table();
        assert(!symbol_entries(remote_symbols).contains_key("bitbucket.org"@));
        insert_symbol(&mut remote_symbols, "bitbucket.org".to_owned(), "\u{f171}".to_owned());
        assert("github.com"@[0] != "bitbucket.org"@[0]);
        assert(!symbol_entries(remote_symbols).contains_key("github.com"@));
        insert_symbol(&mut remote_symbols, "github.com".to_owned(), "\u{f09b}".to_owned());
        assert("gitlab.com"@[0] != "bitbucket.org"@[0]);
        assert("gitlab.com"@[3] != "github.com"@[3]);
        assert(!symbol_entries(remote_symbols).contains_key("gitlab.com"@));
        insert_symbol(&mut remote_symbols, "gitlab.com".to_owned(), "\u{f296}".to_owned());
        assert("gitlab.gnome.org"@[0] != "bitbucket.org"@[0]);
        assert("gitlab.gnome.org"@[3] != "github.com"@[3]);
        assert("gitlab.gnome.org"@[7] != "gitlab.com"@[7]);
        assert(!symbol_entries(remote_symbols).contains_key("gitlab.gnome.org"@));
        insert_symbol(&mut remote_symbols, "gitlab.gnome.org".to_owned(), "\u{f02ac}".to_owned());
        assert(".googlesource.com"@[0] != "bitbucket.org"@[0]);
        assert(".googlesource.com"@[0] != "github.com"@[0]);
        assert(".googlesource.com"@[0] != "gitlab.com"@[0]);
        assert(".googlesource.com"@[0] != "gitlab.gnome.org"@[0]);
        assert(!symbol_entries(remote_symbols).contains_key(".googlesource.com"@));
        insert_symbol(&mut remote_symbols, ".googlesource.com".to_owned(), "\u{f1a0}".to_owned());
        assert("kernel.org"@[0] != "bitbucket.org"@[0]);
        assert("kernel.org"@[0] != "github.com"@[0]);
        assert("kernel.org"@[0] != "gitlab.com"@[0]);
        assert("kernel.org"@[0] != "gitlab.gnome.org"@[0]);
        assert("kernel.org"@[0] != ".googlesource.com"@[0]);
        assert(!symbol_entries(remote_symbols).contains_key("kernel.org"@));
        insert_symbol(&mut remote_symbols, "kernel.org".to_owned(), "\u{f17c}".to_owned());
        assert("launchpad.net"@[0] != "bitbucket.org"@[0]);
        assert("launchpad.net"@[0] != "github.com"@[0]);
        assert("launchpad.net"@[0] != "gitlab.com"@[0]);
        assert("launchpad.net"@[0] != "gitlab.gnome.org"@[0]);
        assert("launchpad.net"@[0] != ".googlesource.com"@[0]);
        assert("launchpad.net"@[0] != "kernel.org"@[0]);
        assert(!symbol_entries(remote_symbols).contains_key("launchpad.net"@));
        insert_symbol(&mut remote_symbols, "launchpad.net".to_owned(), "\u{f13c}".to_owned());
        assert(symbol_entries(remote_symbols) =~= default_remote_symbols());
        assert(symbol_keys(remote_symbols) =~= default_remote_keys());
        GitBranchConfig {
            format: "on [$symbol$branch(:$remote_branch)]($style) ".to_owned(),
            symbol: "\u{e0a0} ".to_owned(),
            style: "bold purple".to_owned(),
            truncation_length: i64::MAX,
            truncation_symbol: "\u{2026}".to_owned(),
            only_attached: false,
            always_show_remote: false,
            ignore_branches: Vec::new(),
            disabled: false,
            remote_symbols,
        }
    }
}

} // verus!
