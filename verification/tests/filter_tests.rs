use code_explorer::filter::{normalize_extension, split_filter_list, PathMatcher, ScanFilters};

fn filters() -> ScanFilters {
    ScanFilters::default()
}

#[test]
fn default_filters_allow_everything_and_respect_gitignore() {
    let f = filters();
    assert!(f.respect_gitignore);
    assert!(!f.include_hidden);
    assert_eq!(f.max_depth, None);
    assert!(f.allows_dir("/repo/src"));
    assert!(f.allows_extension(Some("rs")));
    assert!(f.allows_extension(None));
    assert!(f.allows_language("Rust"));
}

#[test]
fn path_matcher_matches_substrings_of_the_path() {
    let m = PathMatcher::new("vendor".to_string());
    assert!(m.is_match("/repo/third_party/vendor/lib"));
    assert!(m.is_match("/repo/vendored"));
    assert!(!m.is_match("/repo/src"));
    let empty = PathMatcher::new(String::new());
    assert!(empty.is_match(""));
}

#[test]
fn excluded_dirs_are_refused_and_included_dirs_are_required() {
    let mut f = filters();
    f.exclude_dirs.push(PathMatcher::new("target".to_string()));
    assert!(!f.allows_dir("/repo/target/debug"));
    assert!(f.allows_dir("/repo/src"));
    f.include_dirs.push(PathMatcher::new("src".to_string()));
    assert!(f.allows_dir("/repo/src/bin"));
    assert!(!f.allows_dir("/repo/docs"));
}

#[test]
fn extensions_compare_with_one_dot_and_lower_case() {
    assert_eq!(normalize_extension("  ..RS "), ".rs");
    assert_eq!(normalize_extension("toml"), ".toml");
    assert_eq!(normalize_extension(""), ".");
    let mut f = filters();
    f.include_extensions.push("RS".to_string());
    assert!(f.allows_extension(Some("rs")));
    assert!(f.allows_extension(Some(".Rs")));
    assert!(!f.allows_extension(Some("toml")));
    assert!(!f.allows_extension(None));
    let mut g = filters();
    g.exclude_extensions.push(".lock".to_string());
    assert!(!g.allows_extension(Some("LOCK")));
    assert!(g.allows_extension(Some("rs")));
}

#[test]
fn languages_compare_ignoring_ascii_case() {
    let mut f = filters();
    f.include_languages.push("rust".to_string());
    assert!(f.allows_language("Rust"));
    assert!(!f.allows_language("Python"));
    let mut g = filters();
    g.exclude_languages.push("MARKDOWN".to_string());
    assert!(!g.allows_language("Markdown"));
    assert!(g.allows_language("Rust"));
}

#[test]
fn filter_lists_split_on_commas_spaces_and_semicolons() {
    assert_eq!(split_filter_list("rs, toml;md"), vec!["rs", "toml", "md"]);
    assert_eq!(split_filter_list("  ,; "), Vec::<String>::new());
    assert_eq!(split_filter_list("\tpy\t"), vec!["py"]);
    assert_eq!(split_filter_list(""), Vec::<String>::new());
}

#[test]
fn filter_lists_read_back_from_their_comma_joined_text() {
    for input in ["rs, toml;;md", "  ", "a b\tc", ",x,,y ;z"] {
        let entries = split_filter_list(input);
        assert_eq!(split_filter_list(&entries.join(",")), entries, "{input:?}");
    }
}

#[test]
fn no_extension_passes_only_without_an_include_list() {
    let mut f = ScanFilters::default();
    assert!(f.allows_extension(None));
    f.exclude_extensions.push("".to_string());
    assert!(f.allows_extension(None));
    f.include_extensions.push("".to_string());
    assert!(!f.allows_extension(None));
}
