use code_explorer::paths::parent_chars;
use code_explorer::session::{AppState, UiAction, UiEvent};
use code_explorer::tree::{CodeTotals, DirectoryNode, SizeMetric};

fn parent_of(path: &str) -> Option<String> {
    let chars: Vec<char> = path.chars().collect();
    parent_chars(&chars).map(|p| p.into_iter().collect())
}

fn empty_state() -> AppState {
    AppState { root_path: None, current_path: None, root_node: None, metric: SizeMetric::TotalLoc }
}

fn describe(actions: &[UiAction]) -> Vec<String> {
    actions
        .iter()
        .map(|a| match a {
            UiAction::SetStatus(t) => format!("status {t}"),
            UiAction::SetSource(p) => format!("source {p}"),
            UiAction::StartScan(p) => format!("scan {p}"),
            UiAction::CloneRepository(u) => format!("clone {u}"),
            UiAction::Render => "render".to_string(),
        })
        .collect()
}

fn tree() -> DirectoryNode {
    let mut root = DirectoryNode::new("/repo".to_string(), "/repo");
    root.totals = CodeTotals { files: 2, code_loc: 5, comment_loc: 0, blank_loc: 0, total_loc: 5 };
    let mut src = DirectoryNode::new("/repo/src".to_string(), "/repo");
    src.totals = root.totals;
    let mut bin = DirectoryNode::new("/repo/src/bin".to_string(), "/repo");
    bin.totals = root.totals;
    src.children.push(bin);
    root.children.push(src);
    root
}

#[test]
fn parents_follow_path_components() {
    assert_eq!(parent_of("/a/b"), Some("/a".to_string()));
    assert_eq!(parent_of("/a/b/"), Some("/a".to_string()));
    assert_eq!(parent_of("/a//b"), Some("/a".to_string()));
    assert_eq!(parent_of("/a/./b"), Some("/a".to_string()));
    assert_eq!(parent_of("/a"), Some("/".to_string()));
    assert_eq!(parent_of("/"), None);
    assert_eq!(parent_of("//"), None);
    assert_eq!(parent_of(""), None);
    assert_eq!(parent_of("a"), Some(String::new()));
    assert_eq!(parent_of("."), Some(String::new()));
    assert_eq!(parent_of("./a"), Some(".".to_string()));
    assert_eq!(parent_of("a/b/.."), Some("a/b".to_string()));
    assert_eq!(parent_of("a/b/."), Some("a".to_string()));
    for path in ["/a/b", "/a/b/", "/a//b", "/a", "/", "a", ".", "./a", "a/b/..", "a/b/.", "/x/./y/"] {
        let expected = std::path::Path::new(path).parent().map(|p| p.to_string_lossy().into_owned());
        assert_eq!(parent_of(path), expected, "parent of {path:?}");
    }
}

#[test]
fn launching_scans_a_directory_or_reports_it() {
    let mut state = empty_state();
    let actions = state.handle(UiEvent::Launched { path: "/repo".to_string(), is_dir: true });
    assert_eq!(describe(&actions), vec!["status Indexing directory...", "source /repo", "scan /repo"]);
    let actions = state.handle(UiEvent::Launched { path: "/nope".to_string(), is_dir: false });
    assert_eq!(describe(&actions), vec!["status Not a directory: /nope"]);
    assert!(state.root_path.is_none());
}

#[test]
fn rescans_need_a_loaded_root() {
    let mut state = empty_state();
    assert!(state.handle(UiEvent::Rescan).is_empty());
    assert!(state.handle(UiEvent::FiltersChanged).is_empty());
    assert!(state.handle(UiEvent::MetricChanged(2)).is_empty());
    assert_eq!(state.metric, SizeMetric::FileCount);
    let actions = state.handle(UiEvent::ScanFinished(Ok(("/repo".to_string(), tree()))));
    assert_eq!(describe(&actions), vec!["render"]);
    assert_eq!(state.root_path.as_deref(), Some("/repo"));
    assert_eq!(state.current_path.as_deref(), Some("/repo"));
    let actions = state.handle(UiEvent::MetricChanged(1));
    assert_eq!(state.metric, SizeMetric::CodeLoc);
    assert_eq!(describe(&actions), vec!["status Indexing directory...", "source /repo", "scan /repo"]);
    let actions = state.handle(UiEvent::ScanFinished(Err("disk gone".to_string())));
    assert_eq!(describe(&actions), vec!["status Scan failed: disk gone"]);
}

#[test]
fn cloning_reports_progress_and_failures() {
    let mut state = empty_state();
    let actions = state.handle(UiEvent::CloneRequested("https://example.com/r.git".to_string()));
    assert_eq!(describe(&actions), vec!["status Cloning repository...", "clone https://example.com/r.git"]);
    let actions = state.handle(UiEvent::CloneFinished(Err("no network".to_string())));
    assert_eq!(describe(&actions), vec!["status Clone failed: no network"]);
    let actions = state.handle(UiEvent::CloneFinished(Ok("/cache/r".to_string())));
    assert_eq!(describe(&actions), vec!["status Indexing directory...", "source /cache/r", "scan /cache/r"]);
    let actions = state.handle(UiEvent::FolderPicked("/home/me".to_string()));
    assert_eq!(describe(&actions), vec!["status Indexing directory...", "source /home/me", "scan /home/me"]);
}

#[test]
fn entering_and_going_up_move_the_shown_directory() {
    let mut state = empty_state();
    assert!(state.current_directory().is_none());
    state.handle(UiEvent::ScanFinished(Ok(("/repo".to_string(), tree()))));
    assert_eq!(state.current_directory().map(|d| d.name.as_str()), Some("repo"));
    assert!(state.handle(UiEvent::EnterDirectory(String::new())).is_empty());
    let actions = state.handle(UiEvent::EnterDirectory("/repo/src/bin".to_string()));
    assert_eq!(describe(&actions), vec!["render"]);
    assert_eq!(state.current_directory().map(|d| d.name.as_str()), Some("bin"));
    state.handle(UiEvent::GoUp);
    assert_eq!(state.current_path.as_deref(), Some("/repo/src"));
    state.handle(UiEvent::GoUp);
    assert_eq!(state.current_path.as_deref(), Some("/repo"));
    let actions = state.handle(UiEvent::GoUp);
    assert_eq!(describe(&actions), vec!["render"]);
    assert_eq!(state.current_path.as_deref(), Some("/repo"));
    state.handle(UiEvent::EnterDirectory("/repo/missing".to_string()));
    assert_eq!(state.current_directory().map(|d| d.name.as_str()), Some("repo"));
    assert_eq!(describe(&state.handle(UiEvent::DisplayChanged)), vec!["render"]);
}

#[test]
fn going_up_under_a_relative_root_stops_at_the_root() {
    let mut state = empty_state();
    state.root_path = Some("repo".to_string());
    state.current_path = Some("repo/a/b/".to_string());
    state.handle(UiEvent::GoUp);
    assert_eq!(state.current_path.as_deref(), Some("repo/a"));
    state.handle(UiEvent::GoUp);
    assert_eq!(state.current_path.as_deref(), Some("repo"));
    state.handle(UiEvent::GoUp);
    assert_eq!(state.current_path.as_deref(), Some("repo"));
    state.root_path = Some(".".to_string());
    state.current_path = Some("./x".to_string());
    state.handle(UiEvent::GoUp);
    assert_eq!(state.current_path.as_deref(), Some("."));
}
