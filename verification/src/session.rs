//! The explorer's session: which tree is loaded, which directory is shown, and
//! what the window must do in answer to each thing the user does.
use vstd::prelude::*;
use crate::display::{components_equal, find_in, find_node};
use crate::paths::{
    components, is_component_prefix, lemma_parent_stays_below_root, parent,
    parent_chars, path_components,
};
use crate::text::{from_chars, to_chars};
use crate::tree::{metric_from_index, metric_at, opt_view, DirectoryNode, SizeMetric};

verus! {

/// What the window reports.
pub enum UiEvent {
    /// The program was started with a path argument; `is_dir` tells whether
    /// that path names a directory.
    Launched { path: String, is_dir: bool },
    /// A folder was picked to be scanned.
    FolderPicked(String),
    /// A public HTTPS repository was asked for.
    CloneRequested(String),
    /// A clone ended: the path it was cloned into, or why it failed.
    CloneFinished(Result<String, String>),
    /// The loaded tree is to be scanned again.
    Rescan,
    /// The metric at this position of the metric list was chosen.
    MetricChanged(i32),
    /// A filter was edited.
    FiltersChanged,
    /// The view, the row bars or the number of boxes changed.
    DisplayChanged,
    /// A row or box was opened; its path may be empty.
    EnterDirectory(String),
    /// The parent of the shown directory was asked for.
    GoUp,
    /// A scan ended: the canonical root and its tree, or why it failed.
    ScanFinished(Result<(String, DirectoryNode), String>),
}

/// What the window is to do, in order.
pub enum UiAction {
    /// Show this status line.
    SetStatus(String),
    /// Show this path as the source being explored.
    SetSource(String),
    /// Scan this directory with the current filters and metric, then report
    /// `ScanFinished`.
    StartScan(String),
    /// Clone this repository into the cache, then report `CloneFinished`.
    CloneRepository(String),
    /// Redraw the shown directory.
    Render,
}

/// The plain contents of a `UiAction`.
pub enum UiActionView {
    SetStatus(Seq<char>),
    SetSource(Seq<char>),
    StartScan(Seq<char>),
    CloneRepository(Seq<char>),
    Render,
}

impl View for UiAction {
    type V = UiActionView;

    open spec fn view(&self) -> UiActionView {
        match self {
            UiAction::SetStatus(s) => UiActionView::SetStatus(s@),
            UiAction::SetSource(s) => UiActionView::SetSource(s@),
            UiAction::StartScan(s) => UiActionView::StartScan(s@),
            UiAction::CloneRepository(s) => UiActionView::CloneRepository(s@),
            UiAction::Render => UiActionView::Render,
        }
    }
}

pub open spec fn action_views(v: Seq<UiAction>) -> Seq<UiActionView> {
    v.map_values(|a: UiAction| a@)
}

/// The session: the scanned root and its tree once a scan has finished, the
/// directory being shown, and the metric that sizes everything.
pub struct AppState {
    pub root_path: Option<String>,
    pub current_path: Option<String>,
    pub root_node: Option<DirectoryNode>,
    pub metric: SizeMetric,
}

/// Starting a scan of `path`: say so, show the path, scan.
pub open spec fn scan_actions(path: Seq<char>) -> Seq<UiActionView> {
    seq![
        UiActionView::SetStatus("Indexing directory..."@),
        UiActionView::SetSource(path),
        UiActionView::StartScan(path),
    ]
}

/// Scanning the loaded root again, when there is one.
pub open spec fn rescan_actions(root_path: Option<Seq<char>>) -> Seq<UiActionView> {
    match root_path {
        Some(p) => scan_actions(p),
        None => Seq::empty(),
    }
}

/// Whether going up from the shown directory moves: a root and a current
/// path are known and they differ component by component.
pub open spec fn can_go_up(root_path: Option<Seq<char>>, current_path: Option<Seq<char>>) -> bool {
    &&& root_path is Some
    &&& current_path is Some
    &&& components(current_path->0) != components(root_path->0)
}

/// Same root, directory, tree and metric.
pub open spec fn unchanged(a: AppState, b: AppState) -> bool {
    &&& opt_view(a.root_path) == opt_view(b.root_path)
    &&& opt_view(a.current_path) == opt_view(b.current_path)
    &&& a.root_node == b.root_node
    &&& a.metric == b.metric
}

/// The session after an event, apart from its actions.
pub open spec fn next_state_ok(before: AppState, event: UiEvent, after: AppState) -> bool {
    match event {
        UiEvent::MetricChanged(index) => {
            &&& opt_view(after.root_path) == opt_view(before.root_path)
            &&& opt_view(after.current_path) == opt_view(before.current_path)
            &&& after.root_node == before.root_node
            &&& after.metric == metric_at(index)
        },
        UiEvent::EnterDirectory(path) => if path@.len() == 0 {
            unchanged(before, after)
        } else {
            &&& opt_view(after.root_path) == opt_view(before.root_path)
            &&& opt_view(after.current_path) == Some(path@)
            &&& after.root_node == before.root_node
            &&& after.metric == before.metric
        },
        UiEvent::GoUp => if can_go_up(opt_view(before.root_path), opt_view(before.current_path)) {
            &&& opt_view(after.root_path) == opt_view(before.root_path)
            &&& opt_view(after.current_path) == parent(opt_view(before.current_path)->0)
            &&& after.root_node == before.root_node
            &&& after.metric == before.metric
        } else {
            unchanged(before, after)
        },
        UiEvent::ScanFinished(Ok((canonical, root))) => {
            &&& opt_view(after.root_path) == Some(canonical@)
            &&& opt_view(after.current_path) == Some(canonical@)
            &&& after.root_node == Some(root)
            &&& after.metric == before.metric
        },
        _ => unchanged(before, after),
    }
}

/// What the window is to do after an event, given the session before it.
pub open spec fn next_actions(before: AppState, event: UiEvent) -> Seq<UiActionView> {
    match event {
        UiEvent::Launched { path, is_dir } => if is_dir {
            scan_actions(path@)
        } else {
            seq![UiActionView::SetStatus("Not a directory: "@ + path@)]
        },
        UiEvent::FolderPicked(path) => scan_actions(path@),
        UiEvent::CloneRequested(url) => seq![
            UiActionView::SetStatus("Cloning repository..."@),
            UiActionView::CloneRepository(url@),
        ],
        UiEvent::CloneFinished(Ok(path)) => scan_actions(path@),
        UiEvent::CloneFinished(Err(message)) => seq![
            UiActionView::SetStatus("Clone failed: "@ + message@),
        ],
        UiEvent::Rescan => rescan_actions(opt_view(before.root_path)),
        UiEvent::MetricChanged(_) => rescan_actions(opt_view(before.root_path)),
        UiEvent::FiltersChanged => rescan_actions(opt_view(before.root_path)),
        UiEvent::DisplayChanged => seq![UiActionView::Render],
        UiEvent::EnterDirectory(path) => if path@.len() == 0 {
            Seq::empty()
        } else {
            seq![UiActionView::Render]
        },
        UiEvent::GoUp => seq![UiActionView::Render],
        UiEvent::ScanFinished(Ok(_)) => seq![UiActionView::Render],
        UiEvent::ScanFinished(Err(message)) => seq![
            UiActionView::SetStatus("Scan failed: "@ + message@),
        ],
    }
}

fn copy_opt_string(o: &Option<String>) -> (r: Option<String>)
    ensures
        opt_view(r) == opt_view(*o),
{
    match o {
        Some(s) => Some(s.clone()),
        None => None,
    }
}

fn scan_steps(path: String) -> (r: Vec<UiAction>)
    ensures
        action_views(r@) == scan_actions(path@),
{
    let mut r: Vec<UiAction> = Vec::new();
    r.push(UiAction::SetStatus("Indexing directory...".to_owned()));
    r.push(UiAction::SetSource(path.clone()));
    r.push(UiAction::StartScan(path));
    assert(action_views(r@) =~= scan_actions(path@));
    r
}

fn rescan_steps(root_path: &Option<String>) -> (r: Vec<UiAction>)
    ensures
        action_views(r@) == rescan_actions(opt_view(*root_path)),
{
    match root_path {
        Some(p) => scan_steps(p.clone()),
        None => {
            let r: Vec<UiAction> = Vec::new();
            assert(action_views(r@) =~= Seq::<UiActionView>::empty());
            r
        },
    }
}

fn one_step(a: UiAction) -> (r: Vec<UiAction>)
    ensures
        action_views(r@) == seq![a@],
{
    let mut r: Vec<UiAction> = Vec::new();
    r.push(a);
    assert(action_views(r@) =~= seq![a@]);
    r
}

fn prefixed(prefix: &str, text: &str) -> (r: String)
    ensures
        r@ == prefix@ + text@,
{
    let mut r = prefix.to_owned();
    r.append(text);
    r
}

/// The directory to draw: the one of the loaded tree at the current path
/// (the root's own path when none is set), or the root when no directory has
/// that path; nothing before a scan has finished.
pub open spec fn shown_directory(s: AppState) -> Option<DirectoryNode> {
    match s.root_node {
        None => None,
        Some(root) => {
            let target = match s.current_path {
                Some(p) => components(p@),
                None => components(root.path@),
            };
            match find_in(root, target) {
                Some(found) => Some(found),
                None => Some(root),
            }
        },
    }
}

/// Once a scan has finished, the window shows the root of the new tree (a
/// tree whose root lies at the scanned path, as `build_tree` makes it).
pub proof fn lemma_finished_scan_shows_root(
    before: AppState,
    canonical: String,
    root: DirectoryNode,
    after: AppState,
)
    requires
        next_state_ok(before, UiEvent::ScanFinished(Ok((canonical, root))), after),
        components(root.path@) == components(canonical@),
    ensures
        shown_directory(after) == Some(root),
{
}

/// Going up never leaves the scanned root: from a directory at or below a
/// root of at least one component, the shown directory after `GoUp` is
/// still at or below that root, component by component.
pub proof fn lemma_going_up_stays_below_root(before: AppState, after: AppState)
    requires
        next_state_ok(before, UiEvent::GoUp, after),
        before.root_path is Some,
        before.current_path is Some,
        components(before.root_path->0@).len() >= 1,
        is_component_prefix(
            components(before.root_path->0@),
            components(before.current_path->0@),
        ),
    ensures
        opt_view(after.root_path) == opt_view(before.root_path),
        after.current_path matches Some(c) && is_component_prefix(components(before.root_path->0@), components(c@)),
{
    let r = before.root_path->0@;
    let c = before.current_path->0@;
    if can_go_up(opt_view(before.root_path), opt_view(before.current_path)) {
        lemma_parent_stays_below_root(r, c);
    }
}

/// Editing the filters, choosing a metric, or asking for a rescan all scan
/// the loaded root again (status, source, scan of that root, in that order)
/// and do nothing before a root is loaded; none of them changes which
/// directory is shown.
pub proof fn lemma_filters_rescan_the_root(before: AppState, index: i32)
    ensures
        next_actions(before, UiEvent::FiltersChanged) == next_actions(before, UiEvent::Rescan),
        next_actions(before, UiEvent::MetricChanged(index)) == next_actions(before, UiEvent::Rescan),
        before.root_path matches Some(p) ==> next_actions(before, UiEvent::FiltersChanged) == seq![
            UiActionView::SetStatus("Indexing directory..."@),
            UiActionView::SetSource(p@),
            UiActionView::StartScan(p@),
        ],
        before.root_path is None ==> next_actions(before, UiEvent::FiltersChanged).len() == 0,
        forall|after: AppState|
            next_state_ok(before, UiEvent::FiltersChanged, after) ==> opt_view(after.current_path) == opt_view(
                before.current_path,
            ) && opt_view(after.root_path) == opt_view(before.root_path),
{
}

/// What each report of the window leads to, apart from rescans: a launch on a
/// directory scans it and on anything else says it is not one; a picked
/// folder or a finished clone is scanned; a clone is announced then run;
/// failures are reported with their reason; a finished scan, an opened
/// directory, going up and display changes redraw.
pub proof fn lemma_event_answers(before: AppState, path: String, message: String, root: DirectoryNode)
    ensures
        next_actions(before, UiEvent::Launched { path, is_dir: true }) == seq![
            UiActionView::SetStatus("Indexing directory..."@),
            UiActionView::SetSource(path@),
            UiActionView::StartScan(path@),
        ],
        next_actions(before, UiEvent::Launched { path, is_dir: false }) == seq![
            UiActionView::SetStatus("Not a directory: "@ + path@),
        ],
        next_actions(before, UiEvent::FolderPicked(path)) == next_actions(
            before,
            UiEvent::Launched { path, is_dir: true },
        ),
        next_actions(before, UiEvent::CloneFinished(Ok(path))) == next_actions(
            before,
            UiEvent::Launched { path, is_dir: true },
        ),
        next_actions(before, UiEvent::CloneRequested(path)) == seq![
            UiActionView::SetStatus("Cloning repository..."@),
            UiActionView::CloneRepository(path@),
        ],
        next_actions(before, UiEvent::CloneFinished(Err(message))) == seq![
            UiActionView::SetStatus("Clone failed: "@ + message@),
        ],
        next_actions(before, UiEvent::ScanFinished(Err(message))) == seq![
            UiActionView::SetStatus("Scan failed: "@ + message@),
        ],
        next_actions(before, UiEvent::ScanFinished(Ok((path, root)))) == seq![UiActionView::Render],
        next_actions(before, UiEvent::DisplayChanged) == seq![UiActionView::Render],
        next_actions(before, UiEvent::GoUp) == seq![UiActionView::Render],
        path@.len() > 0 ==> next_actions(before, UiEvent::EnterDirectory(path)) == seq![UiActionView::Render],
        path@.len() == 0 ==> next_actions(before, UiEvent::EnterDirectory(path)).len() == 0,
        forall|after: AppState|
            next_state_ok(before, UiEvent::EnterDirectory(path), after) ==> opt_view(after.current_path) == if path@.len()
                == 0 {
                opt_view(before.current_path)
            } else {
                Some(path@)
            },
        forall|after: AppState|
            next_state_ok(before, UiEvent::ScanFinished(Ok((path, root))), after) ==> opt_view(after.root_path)
                == Some(path@) && opt_view(after.current_path) == Some(path@) && after.root_node == Some(root),
        forall|after: AppState|
            #![trigger next_state_ok(before, UiEvent::MetricChanged(0), after)]
            #![trigger next_state_ok(before, UiEvent::MetricChanged(1), after)]
            #![trigger next_state_ok(before, UiEvent::MetricChanged(2), after)]
            (next_state_ok(before, UiEvent::MetricChanged(1), after) ==> after.metric == SizeMetric::CodeLoc)
                && (next_state_ok(before, UiEvent::MetricChanged(2), after) ==> after.metric
                == SizeMetric::FileCount) && (next_state_ok(before, UiEvent::MetricChanged(0), after)
                ==> after.metric == SizeMetric::TotalLoc),
{
}

impl AppState {
    /// Updates the session for `event` and returns what the window is to do.
    pub fn handle(&mut self, event: UiEvent) -> (actions: Vec<UiAction>)
        ensures
            next_state_ok(*old(self), event, *final(self)),
            action_views(actions@) == next_actions(*old(self), event),
    {
        match event {
            UiEvent::Launched { path, is_dir } => {
                if is_dir {
                    scan_steps(path)
                } else {
                    one_step(UiAction::SetStatus(prefixed("Not a directory: ", path.as_str())))
                }
            },
            UiEvent::FolderPicked(path) => scan_steps(path),
            UiEvent::CloneRequested(url) => {
                let mut r: Vec<UiAction> = Vec::new();
                r.push(UiAction::SetStatus("Cloning repository...".to_owned()));
                r.push(UiAction::CloneRepository(url));
                assert(action_views(r@) =~= seq![
                    UiActionView::SetStatus("Cloning repository..."@),
                    UiActionView::CloneRepository(url@),
                ]);
                r
            },
            UiEvent::CloneFinished(Ok(path)) => scan_steps(path),
            UiEvent::CloneFinished(Err(message)) => {
                one_step(UiAction::SetStatus(prefixed("Clone failed: ", message.as_str())))
            },
            UiEvent::Rescan => rescan_steps(&self.root_path),
            UiEvent::MetricChanged(index) => {
                self.metric = metric_from_index(index);
                rescan_steps(&self.root_path)
            },
            UiEvent::FiltersChanged => rescan_steps(&self.root_path),
            UiEvent::DisplayChanged => one_step(UiAction::Render),
            UiEvent::EnterDirectory(path) => {
                if path.unicode_len() == 0 {
                    let r: Vec<UiAction> = Vec::new();
                    assert(action_views(r@) =~= Seq::<UiActionView>::empty());
                    r
                } else {
                    self.current_path = Some(path);
                    one_step(UiAction::Render)
                }
            },
            UiEvent::GoUp => {
                let up: Option<Option<String>> = match (&self.root_path, &self.current_path) {
                    (Some(root), Some(current)) => {
                        let rc = path_components(&to_chars(root.as_str()));
                        let cc = path_components(&to_chars(current.as_str()));
                        if !components_equal(&cc, &rc) {
                            match parent_chars(&to_chars(current.as_str())) {
                                Some(p) => Some(Some(from_chars(&p))),
                                None => Some(None),
                            }
                        } else {
                            None
                        }
                    },
                    _ => None,
                };
                match up {
                    Some(next) => {
                        self.current_path = next;
                    },
                    None => {},
                }
                one_step(UiAction::Render)
            },
            UiEvent::ScanFinished(Ok((canonical, root))) => {
                self.current_path = Some(canonical.clone());
                self.root_path = Some(canonical);
                self.root_node = Some(root);
                one_step(UiAction::Render)
            },
            UiEvent::ScanFinished(Err(message)) => {
                one_step(UiAction::SetStatus(prefixed("Scan failed: ", message.as_str())))
            },
        }
    }

    /// The directory to draw (see `shown_directory`).
    pub fn current_directory(&self) -> (r: Option<&DirectoryNode>)
        ensures
            shown_directory(*self) == match r {
                Some(n) => Some(*n),
                None => None::<DirectoryNode>,
            },
    {
        match &self.root_node {
            None => None,
            Some(root) => {
                let found = match &self.current_path {
                    Some(p) => find_node(root, p.as_str()),
                    None => find_node(root, root.path.as_str()),
                };
                match found {
                    Some(n) => Some(n),
                    None => Some(root),
                }
            },
        }
    }
}

} // verus!
