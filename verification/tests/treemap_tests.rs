use code_explorer::display::{
    breadcrumb_segments, directory_row_parts, directory_tooltip, file_tooltip, find_node, prominent_language_text,
    rgb_or_gray,
    status_text,
};
use code_explorer::format::{first_invalid_color, format_number, hex_color, parse_hex_color, validate_color};
use code_explorer::git::cache_key_for_url;
use code_explorer::treemap::{
    children_heaviest_first, collapse_directory_chain, color_hash, split_near_half, treemap_items,
};
use code_explorer::tree::{metric_from_index, CodeTotals, DirectoryNode, FileNode, SizeMetric};
use code_explorer::visualization::{attention_color, attention_for, AttentionLevel};

fn dir(path: &str, total: u64) -> DirectoryNode {
    let mut d = DirectoryNode::new(path.to_string(), "/repo");
    d.totals = CodeTotals { total_loc: total, ..CodeTotals::default() };
    d
}

#[test]
fn split_lands_nearest_the_middle() {
    assert_eq!(split_near_half(&vec![10, 11, 12], 33), 2);
    assert_eq!(split_near_half(&vec![5, 5], 10), 1);
    assert_eq!(split_near_half(&vec![1, 1, 1, 1], 4), 2);
    assert_eq!(split_near_half(&vec![0, 0, 0], 0), 2);
    assert_eq!(split_near_half(&vec![100, 1, 1], 102), 1);
}

#[test]
fn treemap_keeps_the_heaviest_and_gathers_the_rest() {
    let mut root = DirectoryNode::new("/repo".to_string(), "/repo");
    for index in 0..3u64 {
        root.children.push(dir(&format!("/repo/dir{index}"), 10 + index));
    }
    let items = treemap_items(&root, SizeMetric::TotalLoc, 2, "#d0d7de");
    assert_eq!(items.len(), 3);
    assert_eq!(items[0].label, "dir2");
    assert_eq!(items[0].value, 12);
    assert_eq!(items[1].label, "dir1");
    assert_eq!(items[2].id, "other");
    assert_eq!(items[2].value, 10);
    assert_eq!(items.iter().map(|i| i.value).sum::<u64>(), 33);
    assert_eq!(items[2].color, "#d0d7de");
    assert!(!items[2].varied);
    assert_eq!(items[2].tooltip, "Other\nValue: 10");
    assert_eq!(items[0].color, "#8b949e");
    assert_eq!(
        items[0].tooltip,
        "dir2\n/repo/dir2\nValue: 12\nFiles: 0\nTotal LOC: 12\nCode: 0\nComments: 0\nBlanks: 0"
    );
    let all = treemap_items(&root, SizeMetric::TotalLoc, 0, "#d0d7de");
    assert_eq!(all.len(), 2);
    assert_eq!(all[1].value, 21);
    assert_eq!(children_heaviest_first(&root, SizeMetric::TotalLoc), vec![2, 1, 0]);
}

#[test]
fn single_child_chains_collapse() {
    let mut a = dir("/repo/a", 7);
    let mut b = dir("/repo/a/b", 7);
    let c = dir("/repo/a/b/c", 7);
    b.children.push(c);
    a.children.push(b);
    let (end, label) = collapse_directory_chain(&a);
    assert_eq!(label, "a/b/c");
    assert_eq!(end.path, "/repo/a/b/c");
    let mut d = dir("/repo/d", 8);
    d.children.push(dir("/repo/d/e", 7));
    let (end, label) = collapse_directory_chain(&d);
    assert_eq!(label, "d");
    assert_eq!(end.path, "/repo/d");
}

#[test]
fn colors_parse_and_print_as_hex() {
    assert_eq!(parse_hex_color(" #dea584 "), Some((0xde, 0xa5, 0x84)));
    assert_eq!(parse_hex_color("##FFFFFF"), Some((255, 255, 255)));
    assert_eq!(parse_hex_color("+abcde"), Some((0x0a, 0xbc, 0xde)));
    assert_eq!(parse_hex_color("#fff"), None);
    assert_eq!(parse_hex_color("#gggggg"), None);
    assert_eq!(hex_color(0xde, 0x05, 0xff), "#de05ff");
    assert!(validate_color("#A1b2C3").is_ok());
    let err = validate_color("red").unwrap_err();
    assert_eq!(err.message(), "expected #RRGGBB, got red");
    assert!(validate_color("#12345").is_err());
}

#[test]
fn path_hash_folds_bytes() {
    assert_eq!(color_hash(""), 0);
    assert_eq!(color_hash("a"), 97);
    assert_eq!(color_hash("ab"), 97u32.wrapping_mul(16777619) ^ 98);
}

#[test]
fn numbers_group_thousands() {
    assert_eq!(format_number(0), "0");
    assert_eq!(format_number(999), "999");
    assert_eq!(format_number(1000), "1,000");
    assert_eq!(format_number(1234567), "1,234,567");
    assert_eq!(format_number(u64::MAX), "18,446,744,073,709,551,615");
}

#[test]
fn attention_by_rank_and_vendor_paths() {
    assert_eq!(attention_for("/repo/Target/debug", 1, 10, 5), AttentionLevel::Vendor);
    assert_eq!(attention_for("/repo/src", 1, 10, 0), AttentionLevel::Empty);
    assert_eq!(attention_for("/repo/src", 1, 10, 5), AttentionLevel::TopTen);
    assert_eq!(attention_for("/repo/src", 2, 10, 5), AttentionLevel::TopQuarter);
    assert_eq!(attention_for("/repo/src", 5, 10, 5), AttentionLevel::TopHalf);
    assert_eq!(attention_for("/repo/src", 6, 10, 5), AttentionLevel::Small);
    assert_eq!(attention_for("/repo/builder", 6, 10, 5), AttentionLevel::Small);
    assert_eq!(attention_color(AttentionLevel::Vendor), "#8250df");
    assert_eq!(metric_from_index(1), SizeMetric::CodeLoc);
    assert_eq!(metric_from_index(7), SizeMetric::TotalLoc);
}

#[test]
fn cache_keys_hash_https_urls_only() {
    assert!(cache_key_for_url("http://example.com/x.git").is_err());
    assert_eq!(
        cache_key_for_url("https://github.com/rust-lang/rust").unwrap(),
        "3dbf9e15ef26c109a2152210f7c290e7fe3002b3d44ed5496c9fed4bb6fc59eb"
    );
}

#[test]
fn breadcrumbs_follow_components_below_the_root() {
    let segs = breadcrumb_segments("/repo", "/repo/src/bin");
    let pairs: Vec<(&str, &str)> = segs.iter().map(|s| (s.label.as_str(), s.path.as_str())).collect();
    assert_eq!(pairs, vec![("repo", "/repo"), ("src", "/repo/src"), ("bin", "/repo/src/bin")]);
    let outside = breadcrumb_segments("/repo", "/elsewhere");
    assert_eq!(outside.len(), 1);
}

#[test]
fn nodes_are_found_by_path_and_tooltips_list_counts() {
    let mut root = dir("/repo", 3000);
    let mut a = dir("/repo/a", 3000);
    a.prominent_language = Some("Rust".to_string());
    a.children.push(dir("/repo/a/b", 1000));
    root.children.push(a);
    assert_eq!(find_node(&root, "/repo/a/b/").map(|n| n.name.as_str()), Some("b"));
    assert!(find_node(&root, "/repo/zz").is_none());
    let a = &root.children[0];
    assert_eq!(
        directory_tooltip(a, SizeMetric::TotalLoc),
        "a\n/repo/a\nTotal LOC: 3,000\nFiles: 0\nTotal LOC: 3,000\nCode: 0\nComments: 0\nBlanks: 0\nProminent language: Rust"
    );
    let file = FileNode {
        path: "/repo/a/x.rs".to_string(),
        name: "x.rs".to_string(),
        totals: CodeTotals { files: 1, code_loc: 1200, comment_loc: 3, blank_loc: 4, total_loc: 1207 },
        language: "Rust".to_string(),
        color: None,
    };
    assert_eq!(
        file_tooltip(&file, SizeMetric::CodeLoc),
        "x.rs\n/repo/a/x.rs\nCode LOC: 1,200\nFiles: 1\nTotal LOC: 1,207\nCode: 1,200\nComments: 3\nBlanks: 4\nLanguage: Rust"
    );
}

#[test]
fn printed_colors_parse_back() {
    for (r, g, b) in [(0u8, 0u8, 0u8), (255, 255, 255), (0xde, 0xa5, 0x84), (1, 16, 171)] {
        assert_eq!(parse_hex_color(&hex_color(r, g, b)), Some((r, g, b)));
    }
}

#[test]
fn status_and_language_lines_name_the_directory() {
    let mut node = dir("/repo/src", 1234);
    node.totals.files = 12;
    node.totals.code_loc = 1000;
    assert_eq!(status_text(&node), "src indexed: 12 files, 1,234 total LOC, 1,000 code LOC");
    assert_eq!(prominent_language_text(&node), "No prominent language");
    node.prominent_language = Some("Rust".to_string());
    assert_eq!(prominent_language_text(&node), "Prominent language: Rust");
}

#[test]
fn unparsable_colors_fall_back_to_gray() {
    assert_eq!(rgb_or_gray("#dea584"), (0xde, 0xa5, 0x84));
    assert_eq!(rgb_or_gray("#dea58"), (0x8b, 0x94, 0x9e));
    assert_eq!(rgb_or_gray("not a color"), (0x8b, 0x94, 0x9e));
}

#[test]
fn directory_rows_list_subdirectories_heaviest_first_then_files() {
    let mut root = dir("/repo", 60);
    let mut small = dir("/repo/small", 10);
    small.prominent_language = Some("Rust".to_string());
    let mut big = dir("/repo/target", 50);
    big.children.push(dir("/repo/target/debug", 50));
    root.children.push(small);
    root.children.push(big);
    root.files.push(FileNode {
        path: "/repo/README".to_string(),
        name: "README".to_string(),
        totals: CodeTotals { files: 1, code_loc: 0, comment_loc: 0, blank_loc: 0, total_loc: 5 },
        language: "Other".to_string(),
        color: None,
    });
    let rows = directory_row_parts(&root, SizeMetric::TotalLoc);
    assert_eq!(rows.len(), 3);
    assert_eq!(rows[0].name, "target/debug");
    assert_eq!(rows[0].path, "/repo/target/debug");
    assert_eq!(rows[0].value, 50);
    assert_eq!(rows[0].parent_value, 60);
    assert_eq!(rows[0].attention_color, "#8250df");
    assert_eq!(rows[0].language, "Other");
    assert_eq!(rows[0].language_color, "#8b949e");
    assert_eq!(rows[1].name, "small");
    assert_eq!(rows[1].language, "Rust");
    // Rank 2 of 2 is in the bottom half.
    assert_eq!(rows[1].attention_color, "#0969da");
    assert!(rows[1].is_directory);
    assert!(!rows[2].is_directory);
    assert_eq!(rows[2].files, 1);
    assert_eq!(rows[2].attention_color, "#57606a");
    assert_eq!(rows[2].language_color, "#8b949e");
    assert_eq!(rows[2].row_bar.len(), 1);
    assert_eq!(rows[2].row_bar[0].color.as_deref(), Some("#8b949e"));
}

#[test]
fn color_checks_stop_at_the_first_malformed_color() {
    let colors = vec![Some("#dea584".to_string()), None, Some("blue".to_string()), Some("#12".to_string())];
    let (index, error) = first_invalid_color(&colors).expect("a malformed color");
    assert_eq!(index, 2);
    assert_eq!(error.message(), "expected #RRGGBB, got blue");
    assert!(first_invalid_color(&vec![None, Some("#ABCDEF".to_string())]).is_none());
}

#[test]
fn colors_parse_in_either_case_with_or_without_hash_and_spaces() {
    for text in ["#dea584", "#DEA584", "dea584", "  #DeA584\t", " DEA584 "] {
        assert_eq!(parse_hex_color(text), Some((0xde, 0xa5, 0x84)), "{text:?}");
    }
}

#[test]
fn formatted_numbers_give_their_digits_back() {
    for value in [0u64, 7, 1000, 98765, 1234567, u64::MAX] {
        assert_eq!(format_number(value).replace(',', ""), value.to_string());
    }
}
