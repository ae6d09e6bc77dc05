use code_explorer::filter::{PathMatcher, ScanFilters};
use code_explorer::language::{LanguageDefinition, LanguageRegistry};
use code_explorer::scan::{
    admit_entry, build_tree, count_lines, counts_fit, file_stat, file_stats_of, CountedFile, FileStat, ScanRequest,
    ScanSource,
};
use code_explorer::tree::{CodeTotals, DirectoryNode, SizeMetric};
use indexmap::IndexMap;

fn registry() -> LanguageRegistry {
    let mut defs = IndexMap::new();
    defs.insert(
        "Rust".to_string(),
        LanguageDefinition {
            language_type: Some("programming".to_string()),
            color: Some("#dea584".to_string()),
            extensions: vec![".rs".to_string()],
            filenames: Vec::new(),
            aliases: Vec::new(),
            group: None,
        },
    );
    defs.insert(
        "TOML".to_string(),
        LanguageDefinition {
            language_type: Some("data".to_string()),
            color: Some("#9c4221".to_string()),
            extensions: vec![".toml".to_string()],
            filenames: Vec::new(),
            aliases: Vec::new(),
            group: None,
        },
    );
    LanguageRegistry::from_definitions(defs)
}

fn totals(files: u64, total: u64) -> CodeTotals {
    CodeTotals { files, code_loc: total, comment_loc: 0, blank_loc: 0, total_loc: total }
}

fn stat(root: &str, path: &str, language: &str, t: CodeTotals) -> FileStat {
    file_stat(root, path, language.to_string(), t).expect("file below root")
}

#[test]
fn lines_are_counted_by_kind() {
    let t = count_lines("fn main() {\n    // hi\n\n    # x\n  -- y\n/* z */\n * w\nlet a = 1;\n");
    assert_eq!(t.files, 1);
    assert_eq!(t.total_loc, 8);
    assert_eq!(t.blank_loc, 1);
    assert_eq!(t.comment_loc, 5);
    assert_eq!(t.code_loc, 2);
}

#[test]
fn line_endings_and_empty_text() {
    let empty = count_lines("");
    assert_eq!(empty.files, 1);
    assert_eq!(empty.total_loc, 0);
    let crlf = count_lines("a\r\n\r\nb");
    assert_eq!(crlf.total_loc, 3);
    assert_eq!(crlf.blank_loc, 1);
    assert_eq!(crlf.code_loc, 2);
    let trailing = count_lines("x\n\n");
    assert_eq!(trailing.total_loc, 2);
    assert_eq!(trailing.blank_loc, 1);
}

#[test]
fn nested_directory_totals_reach_the_root() {
    let r = registry();
    let t = count_lines("fn main() {\n    println!(\"hi\");\n}\n");
    let files = vec![stat("/repo", "/repo/src/main.rs", "Rust", t)];
    assert!(counts_fit(&files));
    let root = build_tree("/repo", &files, SizeMetric::TotalLoc, &r);
    assert_eq!(root.totals.files, 1);
    assert_eq!(root.totals.total_loc, 3);
    assert_eq!(root.languages[0].language, "Rust");
    assert_eq!(root.children[0].name, "src");
    assert_eq!(root.name, "repo");
    assert_eq!(root.path, "/repo");
    assert_eq!(root.children[0].path, "/repo/src");
    assert_eq!(root.children[0].depth, 1);
    assert_eq!(root.children[0].files[0].path, "/repo/src/main.rs");
    assert_eq!(root.children[0].files[0].color, Some("#dea584".to_string()));
    assert_eq!(root.prominent_language, Some("Rust".to_string()));
}

#[test]
fn children_are_heaviest_first_with_ties_by_name() {
    let r = registry();
    let files = vec![
        stat("/repo", "/repo/b/x.rs", "Rust", totals(1, 5)),
        stat("/repo", "/repo/a/y.rs", "Rust", totals(1, 5)),
        stat("/repo", "/repo/c/z.toml", "TOML", totals(1, 9)),
        stat("/repo", "/repo/top.rs", "Rust", totals(1, 2)),
    ];
    let root = build_tree("/repo", &files, SizeMetric::TotalLoc, &r);
    let names: Vec<&str> = root.children.iter().map(|c| c.name.as_str()).collect();
    assert_eq!(names, vec!["c", "a", "b"]);
    assert_eq!(root.totals.total_loc, 21);
    assert_eq!(root.totals.files, 4);
    assert_eq!(root.files.len(), 1);
    assert_eq!(root.files[0].name, "top.rs");
    assert_eq!(root.languages[0].language, "Rust");
    assert_eq!(root.languages[0].totals.total_loc, 12);
    assert_eq!(root.languages[1].language, "TOML");
    let by_files = build_tree("/repo", &files, SizeMetric::FileCount, &r);
    let names: Vec<&str> = by_files.children.iter().map(|c| c.name.as_str()).collect();
    assert_eq!(names, vec!["a", "b", "c"]);
}

#[test]
fn empty_scans_give_an_empty_root() {
    let r = registry();
    let root = build_tree("/", &Vec::new(), SizeMetric::CodeLoc, &r);
    assert_eq!(root.name, "/");
    assert_eq!(root.totals, CodeTotals::default());
    assert!(root.children.is_empty());
    assert_eq!(root.prominent_language, None);
}

#[test]
fn file_stats_only_for_paths_below_the_root() {
    assert!(file_stat("/repo", "/elsewhere/a.rs", "Rust".to_string(), totals(1, 1)).is_none());
    assert!(file_stat("/repo", "/repo", "Rust".to_string(), totals(1, 1)).is_none());
    assert!(file_stat("/repo", "/repo/../a.rs", "Rust".to_string(), totals(1, 1)).is_none());
    let f = stat("/repo/", "/repo//src/./lib.rs", "Rust", totals(1, 1));
    assert_eq!(f.dirs, vec!["src"]);
    assert_eq!(f.name, "lib.rs");
}

#[test]
fn counts_that_overflow_are_reported() {
    let big = CodeTotals { files: 1, code_loc: u64::MAX, comment_loc: 0, blank_loc: 0, total_loc: 1 };
    let files = vec![
        stat("/r", "/r/a.rs", "Rust", big),
        stat("/r", "/r/b.rs", "Rust", big),
    ];
    assert!(!counts_fit(&files));
    assert!(counts_fit(&files[..1].to_vec()));
}

#[test]
fn entries_are_admitted_by_kind_extension_and_language() {
    let r = registry();
    let f = ScanFilters::default();
    assert_eq!(admit_entry(&f, &r, "/repo", "/repo/src", true, false), None);
    assert_eq!(admit_entry(&f, &r, "/repo", "/repo/link", false, false), None);
    assert_eq!(admit_entry(&f, &r, "/repo", "/repo/main.rs", false, true), Some("Rust".to_string()));
    assert_eq!(admit_entry(&f, &r, "/repo", "/repo/blob.bin", false, true), Some("Other".to_string()));
    let mut g = ScanFilters::default();
    g.exclude_languages.push("other".to_string());
    assert_eq!(admit_entry(&g, &r, "/repo", "/repo/blob.bin", false, true), None);
    let mut h = ScanFilters::default();
    h.include_extensions.push("toml".to_string());
    assert_eq!(admit_entry(&h, &r, "/repo", "/repo/main.rs", false, true), None);
}

#[test]
fn files_under_filtered_directories_are_not_admitted() {
    let r = registry();
    let mut f = ScanFilters::default();
    f.exclude_dirs.push(PathMatcher::new("gen".to_string()));
    assert_eq!(admit_entry(&f, &r, "/repo", "/repo/gen/out.rs", false, true), None);
    assert_eq!(admit_entry(&f, &r, "/repo", "/repo/src/gen/out.rs", false, true), None);
    assert_eq!(admit_entry(&f, &r, "/repo", "/repo/src/main.rs", false, true), Some("Rust".to_string()));
    assert_eq!(admit_entry(&f, &r, "/repo", "/elsewhere/main.rs", false, true), None);
    let mut g = ScanFilters::default();
    g.include_dirs.push(PathMatcher::new("src".to_string()));
    assert_eq!(admit_entry(&g, &r, "/repo", "/repo/src/deep/main.rs", false, true), Some("Rust".to_string()));
    assert_eq!(admit_entry(&g, &r, "/repo", "/repo/docs/main.rs", false, true), None);
    // A file directly in the root has no directory to test.
    assert_eq!(admit_entry(&g, &r, "/repo", "/repo/main.rs", false, true), Some("Rust".to_string()));
}

#[test]
fn directory_nodes_are_named_and_placed_below_the_root() {
    let n = DirectoryNode::new("/repo/a/b".to_string(), "/repo");
    assert_eq!(n.name, "b");
    assert_eq!(n.depth, 2);
    let root = DirectoryNode::new("/".to_string(), "/");
    assert_eq!(root.name, "/");
    assert_eq!(root.depth, 0);
    let outside = DirectoryNode::new("/other".to_string(), "/repo");
    assert_eq!(outside.depth, 0);
}

#[test]
fn directory_counts_are_files_plus_subdirectories() {
    let r = registry();
    let files = vec![
        stat("/repo", "/repo/a/x.rs", "Rust", CodeTotals { files: 1, code_loc: 3, comment_loc: 1, blank_loc: 2, total_loc: 6 }),
        stat("/repo", "/repo/a/b/y.rs", "Rust", CodeTotals { files: 1, code_loc: 7, comment_loc: 0, blank_loc: 1, total_loc: 8 }),
        stat("/repo", "/repo/c.toml", "TOML", CodeTotals { files: 1, code_loc: 2, comment_loc: 0, blank_loc: 0, total_loc: 2 }),
    ];
    let root = build_tree("/repo", &files, SizeMetric::CodeLoc, &r);
    fn check(node: &DirectoryNode) {
        let mut sum = CodeTotals::default();
        for f in &node.files {
            sum.add_assign(&f.totals);
        }
        for c in &node.children {
            sum.add_assign(&c.totals);
            check(c);
        }
        assert_eq!(sum, node.totals);
    }
    check(&root);
    assert_eq!(root.totals.total_loc, 16);
    assert_eq!(root.children[0].children[0].path, "/repo/a/b");
}

#[test]
fn children_listed_by_path_heaviest_first() {
    let r = registry();
    let files = vec![
        stat("/repo", "/repo/small/x.rs", "Rust", totals(1, 1)),
        stat("/repo", "/repo/big/y.rs", "Rust", totals(1, 9)),
    ];
    let root = build_tree("/repo", &files, SizeMetric::TotalLoc, &r);
    let listed = code_explorer::scan::flatten_children_for_list(&root, SizeMetric::TotalLoc);
    let keys: Vec<&String> = listed.keys().collect();
    assert_eq!(keys, vec!["/repo/big", "/repo/small"]);
    assert_eq!(listed["/repo/big"].totals.total_loc, 9);
    let copy = root.copy();
    assert_eq!(copy.children.len(), 2);
    assert_eq!(copy.children[1].files[0].name, "x.rs");
    assert_eq!(copy.totals, root.totals);
}

#[test]
fn scan_requests_carry_source_root_filters_and_metric() {
    let request = ScanRequest {
        source: ScanSource::PublicHttpsRepo {
            url: "https://example.com/repo.git".to_string(),
            cache_path: "/cache/repos/abc".to_string(),
        },
        root_path: "/cache/repos/abc".to_string(),
        filters: ScanFilters::default(),
        metric: SizeMetric::CodeLoc,
    };
    let copy = request.clone();
    assert_eq!(copy.root_path, "/cache/repos/abc");
    assert_eq!(copy.metric, SizeMetric::CodeLoc);
    assert!(copy.filters.respect_gitignore);
    match copy.source {
        ScanSource::PublicHttpsRepo { url, cache_path } => {
            assert_eq!(url, "https://example.com/repo.git");
            assert_eq!(cache_path, "/cache/repos/abc");
        }
        ScanSource::LocalFolder(_) => panic!("expected a repository source"),
    }
    let local = ScanSource::LocalFolder("/home/me/code".to_string());
    assert!(matches!(local, ScanSource::LocalFolder(ref p) if p == "/home/me/code"));
}

#[test]
fn counted_files_keep_only_nonempty_counts_below_the_root() {
    let counted = vec![
        CountedFile { path: "/repo/src/main.rs".to_string(), language: "Rust".to_string(), totals: totals(1, 3) },
        CountedFile { path: "/repo/empty.rs".to_string(), language: "Rust".to_string(), totals: totals(0, 0) },
        CountedFile { path: "/elsewhere/x.rs".to_string(), language: "Rust".to_string(), totals: totals(1, 1) },
        CountedFile { path: "/repo/a.toml".to_string(), language: "TOML".to_string(), totals: totals(0, 2) },
    ];
    let stats = file_stats_of("/repo", &counted);
    assert_eq!(stats.len(), 2);
    assert_eq!(stats[0].dirs, vec!["src".to_string()]);
    assert_eq!(stats[0].name, "main.rs");
    assert_eq!(stats[1].name, "a.toml");
    assert_eq!(stats[1].language, "TOML");
    let mut root = DirectoryNode::new("/repo".to_string(), "/repo");
    root.children.push(DirectoryNode::new("/repo/src".to_string(), "/repo"));
    let copy = root.clone();
    assert_eq!(copy.children[0].path, "/repo/src");
}

fn listed_paths(node: &DirectoryNode, out: &mut Vec<String>) {
    for f in &node.files {
        out.push(f.path.clone());
    }
    for c in &node.children {
        assert_eq!(std::path::Path::new(&c.path).parent(), Some(std::path::Path::new(&node.path)));
        listed_paths(c, out);
    }
}

#[test]
fn built_trees_list_each_file_once_below_its_parent() {
    let r = registry();
    let paths = ["/repo/a.rs", "/repo/src/b.rs", "/repo/src/deep/c.rs", "/repo/docs/d.toml", "/repo/src/e.rs"];
    let files: Vec<FileStat> = paths.iter().map(|p| stat("/repo", p, "Rust", totals(1, 2))).collect();
    let root = build_tree("/repo", &files, SizeMetric::TotalLoc, &r);
    let mut listed = Vec::new();
    listed_paths(&root, &mut listed);
    listed.sort();
    let mut expected: Vec<String> = paths.iter().map(|p| p.to_string()).collect();
    expected.sort();
    assert_eq!(listed, expected);
}

#[test]
fn normalized_extensions_normalize_to_themselves() {
    for v in [" .RS ", "rs", "", "..Tar.GZ", "a b"] {
        let n = code_explorer::filter::normalize_extension(v);
        assert!(n.starts_with('.'));
        assert!(!n.chars().any(|c| c.is_ascii_uppercase()));
        assert_eq!(code_explorer::filter::normalize_extension(&n), n);
    }
    assert_eq!(code_explorer::filter::normalize_extension(" .RS "), ".rs");
}

#[test]
fn formatted_numbers_group_by_threes() {
    for v in [0u64, 12, 123, 1234, 123456, 1234567, u64::MAX] {
        let s = code_explorer::format::format_number(v);
        let groups: Vec<&str> = s.split(',').collect();
        assert!((1..=3).contains(&groups[0].len()));
        assert!(groups[1..].iter().all(|g| g.len() == 3));
        assert_eq!(s.matches(',').count(), (v.to_string().len() - 1) / 3);
    }
}
