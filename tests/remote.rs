use indexmap::IndexMap;
use title_format::git_branch::GitBranchConfig;

fn config_with(entries: &[(&str, &str)]) -> GitBranchConfig {
    let mut config = GitBranchConfig::default();
    let mut table = IndexMap::new();
    for (k, v) in entries {
        table.insert(k.to_string(), v.to_string());
    }
    config.remote_symbols = table;
    config
}

#[test]
fn remote_symbol_exact_and_suffix() {
    let config = config_with(&[("github.com", "GH"), (".googlesource.com", "GS")]);
    assert_eq!(config.get_remote_symbol("https://github.com/user/repo").as_deref(), Some("GH"));
    assert_eq!(
        config.get_remote_symbol("https://chromium.googlesource.com/x").as_deref(),
        Some("GS")
    );
    assert_eq!(config.get_remote_symbol("https://example.com/x"), None);
}

#[test]
fn remote_symbol_most_specific_suffix_wins() {
    let config = config_with(&[(".example.com", "E"), (".b.example.com", "B"), (".com", "C")]);
    assert_eq!(config.get_remote_symbol("https://a.b.example.com/").as_deref(), Some("B"));
    assert_eq!(config.get_remote_symbol("https://z.example.com/").as_deref(), Some("E"));
    assert_eq!(config.get_remote_symbol("https://other.com/").as_deref(), Some("C"));
    assert_eq!(config.get_remote_symbol("https://localhost/"), None);
}

#[test]
fn remote_symbol_decodes_percent_escapes() {
    let config = config_with(&[("github.com", "GH")]);
    assert_eq!(
        config.get_remote_symbol("https%3A%2F%2Fgithub.com%2Fuser%2Frepo").as_deref(),
        Some("GH")
    );
}

#[test]
fn remote_symbol_without_host_or_url() {
    let config = config_with(&[("github.com", "GH")]);
    assert_eq!(config.get_remote_symbol("unix:/run/foo.socket"), None);
    assert_eq!(config.get_remote_symbol("not a url"), None);
    assert_eq!(config.get_remote_symbol("%FF%FE"), None);
}

#[test]
fn host_symbol_from_host() {
    let config = config_with(&[("github.com", "GH"), (".googlesource.com", "GS")]);
    assert_eq!(config.host_symbol("github.com").as_deref(), Some("GH"));
    assert_eq!(config.host_symbol("x.y.googlesource.com").as_deref(), Some("GS"));
    assert_eq!(config.host_symbol(".googlesource.com").as_deref(), Some("GS"));
    assert_eq!(config.host_symbol("gitlab.com"), None);
}

#[test]
fn default_remote_symbols() {
    let config = GitBranchConfig::default();
    assert_eq!(
        config.get_remote_symbol("https://github.com/a/b").as_deref(),
        Some("\u{f09b}")
    );
    assert_eq!(
        config.get_remote_symbol("https://android.googlesource.com/p").as_deref(),
        Some("\u{f1a0}")
    );
    assert_eq!(config.style, "bold purple");
    assert_eq!(config.truncation_length, i64::MAX);
    assert!(!config.disabled);
}
