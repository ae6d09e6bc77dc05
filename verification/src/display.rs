//! Text shown for directories and files, the breadcrumb trail of a path, and
//! finding a directory of a tree by its path.
use vstd::prelude::*;
use vstd::string::StringExecFns;
use crate::format::{decimal, format_number, group_digits, parse_hex_color, parsed_color};
use crate::paths::{
    component_prefix_exec, components, file_name, file_name_chars, join_path, path_components,
    push_component,
};
use crate::language::FALLBACK_LANGUAGE_COLOR;
use crate::scan::{
    directory_at, directory_entries, directory_map_len, flatten_children_for_list, heaviest_paths,
    map_insert_all, relative_components,
};
use crate::text::{chars_eq, copy_chars, from_chars, texts, to_chars};
use crate::tree::{
    breakdown_views, opt_view, same_tree, DirectoryNode, FileNode, LanguageBreakdown, LanguageBreakdownView,
    SizeMetric,
};
use crate::treemap::{base_color, chain_end, chain_label, collapse_directory_chain, heaviest_first};
use crate::visualization::{attention, attention_color, attention_color_text, attention_for};

verus! {

/// A count as shown: grouped decimal digits.
pub open spec fn shown(n: u64) -> Seq<char> {
    group_digits(decimal(n as nat))
}

/// The hover text of a directory row.
pub open spec fn directory_tooltip_text(node: DirectoryNode, metric: SizeMetric) -> Seq<char> {
    let language = match node.prominent_language {
        Some(l) => l@,
        None => "Other"@,
    };
    node.name@ + "\n"@ + node.path@ + "\n"@ + metric.spec_label() + ": "@ + shown(
        metric.spec_value(&node.totals),
    ) + "\nFiles: "@ + shown(node.totals.files) + "\nTotal LOC: "@ + shown(node.totals.total_loc)
        + "\nCode: "@ + shown(node.totals.code_loc) + "\nComments: "@ + shown(
        node.totals.comment_loc,
    ) + "\nBlanks: "@ + shown(node.totals.blank_loc) + "\nProminent language: "@ + language
}

/// The hover text of a file row.
pub open spec fn file_tooltip_text(file: FileNode, metric: SizeMetric) -> Seq<char> {
    file.name@ + "\n"@ + file.path@ + "\n"@ + metric.spec_label() + ": "@ + shown(
        metric.spec_value(&file.totals),
    ) + "\nFiles: 1"@ + "\nTotal LOC: "@ + shown(file.totals.total_loc) + "\nCode: "@ + shown(
        file.totals.code_loc,
    ) + "\nComments: "@ + shown(file.totals.comment_loc) + "\nBlanks: "@ + shown(
        file.totals.blank_loc,
    ) + "\nLanguage: "@ + file.language@
}

pub fn directory_tooltip(node: &DirectoryNode, metric: SizeMetric) -> (t: String)
    ensures
        t@ == directory_tooltip_text(*node, metric),
{
    let mut t = node.name.clone();
    t.append("\n");
    t.append(node.path.as_str());
    t.append("\n");
    t.append(metric.label());
    t.append(": ");
    t.append(format_number(metric.value(&node.totals)).as_str());
    t.append("\nFiles: ");
    t.append(format_number(node.totals.files).as_str());
    t.append("\nTotal LOC: ");
    t.append(format_number(node.totals.total_loc).as_str());
    t.append("\nCode: ");
    t.append(format_number(node.totals.code_loc).as_str());
    t.append("\nComments: ");
    t.append(format_number(node.totals.comment_loc).as_str());
    t.append("\nBlanks: ");
    t.append(format_number(node.totals.blank_loc).as_str());
    t.append("\nProminent language: ");
    match &node.prominent_language {
        Some(l) => t.append(l.as_str()),
        None => t.append("Other"),
    }
    t
}

pub fn file_tooltip(file: &FileNode, metric: SizeMetric) -> (t: String)
    ensures
        t@ == file_tooltip_text(*file, metric),
{
    let mut t = file.name.clone();
    t.append("\n");
    t.append(file.path.as_str());
    t.append("\n");
    t.append(metric.label());
    t.append(": ");
    t.append(format_number(metric.value(&file.totals)).as_str());
    t.append("\nFiles: 1");
    t.append("\nTotal LOC: ");
    t.append(format_number(file.totals.total_loc).as_str());
    t.append("\nCode: ");
    t.append(format_number(file.totals.code_loc).as_str());
    t.append("\nComments: ");
    t.append(format_number(file.totals.comment_loc).as_str());
    t.append("\nBlanks: ");
    t.append(format_number(file.totals.blank_loc).as_str());
    t.append("\nLanguage: ");
    t.append(file.language.as_str());
    t
}

/// The line that reports a scanned directory.
pub open spec fn status_line(node: DirectoryNode) -> Seq<char> {
    node.name@ + " indexed: "@ + shown(node.totals.files) + " files, "@ + shown(node.totals.total_loc)
        + " total LOC, "@ + shown(node.totals.code_loc) + " code LOC"@
}

pub fn status_text(node: &DirectoryNode) -> (t: String)
    ensures
        t@ == status_line(*node),
{
    let mut t = node.name.clone();
    t.append(" indexed: ");
    t.append(format_number(node.totals.files).as_str());
    t.append(" files, ");
    t.append(format_number(node.totals.total_loc).as_str());
    t.append(" total LOC, ");
    t.append(format_number(node.totals.code_loc).as_str());
    t.append(" code LOC");
    t
}

/// The line that names a directory's prominent language.
pub open spec fn prominent_line(node: DirectoryNode) -> Seq<char> {
    match node.prominent_language {
        Some(l) => "Prominent language: "@ + l@,
        None => "No prominent language"@,
    }
}

pub fn prominent_language_text(node: &DirectoryNode) -> (t: String)
    ensures
        t@ == prominent_line(*node),
{
    match &node.prominent_language {
        Some(l) => {
            let mut t = "Prominent language: ".to_owned();
            t.append(l.as_str());
            t
        },
        None => "No prominent language".to_owned(),
    }
}

/// Red, green and blue of a color written "#rrggbb" (see `parsed_color`), or
/// the fallback gray 8b949e.
pub fn rgb_or_gray(value: &str) -> (r: (u8, u8, u8))
    ensures
        r == match parsed_color(value@) {
            Some(c) => c,
            None => (0x8bu8, 0x94u8, 0x9eu8),
        },
{
    match parse_hex_color(value) {
        Some(c) => c,
        None => (0x8b, 0x94, 0x9e),
    }
}

// ---------------------------------------------------------------------------
// Rows of the directory list
// ---------------------------------------------------------------------------

/// One row of the directory list, before its percentage is formatted: the
/// percentage is `value` over `parent_value` (a zero parent counting as one).
pub struct DirectoryRowParts {
    pub path: String,
    pub name: String,
    pub is_directory: bool,
    pub value: u64,
    pub parent_value: u64,
    pub files: u64,
    pub language: String,
    pub language_color: String,
    pub attention_color: String,
    pub tooltip: String,
    pub row_bar: Vec<LanguageBreakdown>,
}

/// The plain contents of a `DirectoryRowParts`.
pub struct DirectoryRowView {
    pub path: Seq<char>,
    pub name: Seq<char>,
    pub is_directory: bool,
    pub value: u64,
    pub parent_value: u64,
    pub files: u64,
    pub language: Seq<char>,
    pub language_color: Seq<char>,
    pub attention_color: Seq<char>,
    pub tooltip: Seq<char>,
    pub row_bar: Seq<LanguageBreakdownView>,
}

impl View for DirectoryRowParts {
    type V = DirectoryRowView;

    open spec fn view(&self) -> DirectoryRowView {
        DirectoryRowView {
            path: self.path@,
            name: self.name@,
            is_directory: self.is_directory,
            value: self.value,
            parent_value: self.parent_value,
            files: self.files,
            language: self.language@,
            language_color: self.language_color@,
            attention_color: self.attention_color@,
            tooltip: self.tooltip@,
            row_bar: breakdown_views(self.row_bar@),
        }
    }
}

/// How many languages a row's mini-bar shows at most.
pub const ROW_BAR_LANGUAGES: usize = 8;

/// The row of a subdirectory listed `rank`-th of `count`: shown as the end of
/// its chain of single same-sized children, with its prominent language (or
/// "Other"), its heaviest language's color, the attention its rank deserves,
/// and up to eight languages in its mini-bar.
pub open spec fn dir_row(d: DirectoryNode, metric: SizeMetric, parent_value: u64, rank: u64, count: u64) -> DirectoryRowView {
    let e = chain_end(d);
    let value = metric.spec_value(&e.totals);
    DirectoryRowView {
        path: e.path@,
        name: chain_label(d),
        is_directory: true,
        value,
        parent_value,
        files: e.totals.files,
        language: match e.prominent_language {
            Some(l) => l@,
            None => "Other"@,
        },
        language_color: base_color(e),
        attention_color: attention_color_text(attention(e.path@, rank, count, value)),
        tooltip: directory_tooltip_text(e, metric),
        row_bar: breakdown_views(
            e.languages@.take(
                if e.languages@.len() < ROW_BAR_LANGUAGES {
                    e.languages@.len() as int
                } else {
                    ROW_BAR_LANGUAGES as int
                },
            ),
        ),
    }
}

/// The color a file is drawn in: its language's, or the fallback gray.
pub open spec fn file_color(f: FileNode) -> Seq<char> {
    match f.color {
        Some(c) => c@,
        None => FALLBACK_LANGUAGE_COLOR@,
    }
}

/// The row of a file: one file of its language, in a neutral attention color.
pub open spec fn file_row(f: FileNode, metric: SizeMetric, parent_value: u64) -> DirectoryRowView {
    DirectoryRowView {
        path: f.path@,
        name: f.name@,
        is_directory: false,
        value: metric.spec_value(&f.totals),
        parent_value,
        files: 1,
        language: f.language@,
        language_color: file_color(f),
        attention_color: "#57606a"@,
        tooltip: file_tooltip_text(f, metric),
        row_bar: seq![LanguageBreakdownView { language: f.language@, color: Some(file_color(f)), totals: f.totals }],
    }
}

fn directory_row(d: &DirectoryNode, metric: SizeMetric, parent_value: u64, rank: u64, count: u64) -> (r: DirectoryRowParts)
    ensures
        r@ == dir_row(*d, metric, parent_value, rank, count),
{
    let (end, label) = collapse_directory_chain(d);
    let value = metric.value(&end.totals);
    let language = match &end.prominent_language {
        Some(l) => l.clone(),
        None => "Other".to_owned(),
    };
    let language_color = if end.languages.len() > 0 {
        match &end.languages[0].color {
            Some(c) => c.clone(),
            None => FALLBACK_LANGUAGE_COLOR.to_owned(),
        }
    } else {
        FALLBACK_LANGUAGE_COLOR.to_owned()
    };
    let level = attention_for(end.path.as_str(), rank, count, value);
    let shown: usize = if end.languages.len() < ROW_BAR_LANGUAGES {
        end.languages.len()
    } else {
        ROW_BAR_LANGUAGES
    };
    let mut row_bar: Vec<LanguageBreakdown> = Vec::new();
    let mut i: usize = 0;
    while i < shown
        invariant
            shown <= end.languages.len(),
            i <= shown,
            breakdown_views(row_bar@) == breakdown_views(end.languages@.take(i as int)),
        decreases shown - i,
    {
        let ghost prev = row_bar@;
        row_bar.push(end.languages[i].copy());
        assert(breakdown_views(row_bar@) =~= breakdown_views(prev).push(end.languages@[i as int]@));
        assert(breakdown_views(end.languages@.take(i + 1)) =~= breakdown_views(
            end.languages@.take(i as int),
        ).push(end.languages@[i as int]@));
        i = i + 1;
    }
    DirectoryRowParts {
        path: end.path.clone(),
        name: label,
        is_directory: true,
        value,
        parent_value,
        files: end.totals.files,
        language,
        language_color,
        attention_color: attention_color(level).to_owned(),
        tooltip: directory_tooltip(end, metric),
        row_bar,
    }
}

fn file_row_parts(f: &FileNode, metric: SizeMetric, parent_value: u64) -> (r: DirectoryRowParts)
    ensures
        r@ == file_row(*f, metric, parent_value),
{
    let color = match &f.color {
        Some(c) => c.clone(),
        None => FALLBACK_LANGUAGE_COLOR.to_owned(),
    };
    let mut row_bar: Vec<LanguageBreakdown> = Vec::new();
    row_bar.push(LanguageBreakdown { language: f.language.clone(), color: Some(color.clone()), totals: f.totals });
    let r = DirectoryRowParts {
        path: f.path.clone(),
        name: f.name.clone(),
        is_directory: false,
        value: metric.value(&f.totals),
        parent_value,
        files: 1,
        language: f.language.clone(),
        language_color: color,
        attention_color: "#57606a".to_owned(),
        tooltip: file_tooltip(f, metric),
        row_bar,
    };
    assert(breakdown_views(r.row_bar@) =~= seq![
        LanguageBreakdownView { language: f.language@, color: Some(file_color(*f)), totals: f.totals },
    ]);
    r
}

/// The rows of a directory's list: its subdirectories as
/// `flatten_children_for_list` keys them (heaviest first, one per path), the
/// `i`-th ranked `i + 1` of their number; then its files in their order.
pub fn directory_row_parts(node: &DirectoryNode, metric: SizeMetric) -> (r: Vec<DirectoryRowParts>)
    ensures
        exists|copies: Seq<DirectoryNode>|
            #![trigger map_insert_all(heaviest_paths(*node, metric), copies)]
            {
                let entries = map_insert_all(heaviest_paths(*node, metric), copies);
                let k = entries.len();
                let pv = metric.spec_value(&node.totals);
                &&& copies.len() == node.children@.len()
                &&& forall|i: int|
                    0 <= i < copies.len() ==> same_tree(
                        #[trigger] copies[i],
                        node.children@[heaviest_first(*node, metric)[i] as int],
                    )
                &&& r@.len() == k + node.files@.len()
                &&& forall|i: int|
                    0 <= i < k ==> (#[trigger] r@[i])@ == dir_row(
                        entries[i].1,
                        metric,
                        pv,
                        (i + 1) as u64,
                        k as u64,
                    )
                &&& forall|j: int|
                    0 <= j < node.files@.len() ==> (#[trigger] r@[k + j])@ == file_row(
                        node.files@[j],
                        metric,
                        pv,
                    )
            },
{
    let parent_value = metric.value(&node.totals);
    let m = flatten_children_for_list(node, metric);
    let ghost copies = choose|copies: Seq<DirectoryNode>|
        {
            &&& copies.len() == node.children@.len()
            &&& forall|i: int|
                0 <= i < copies.len() ==> same_tree(
                    #[trigger] copies[i],
                    node.children@[heaviest_first(*node, metric)[i] as int],
                )
            &&& directory_entries(m) == map_insert_all(heaviest_paths(*node, metric), copies)
        };
    let ghost entries = directory_entries(m);
    let k = directory_map_len(&m);
    let count: u64 = k as u64;
    let mut rows: Vec<DirectoryRowParts> = Vec::new();
    let mut i: usize = 0;
    while i < k
        invariant
            k == entries.len(),
            entries == directory_entries(m),
            count == k as u64,
            i <= k,
            rows.len() == i,
            forall|t: int|
                0 <= t < i ==> (#[trigger] rows@[t])@ == dir_row(
                    entries[t].1,
                    metric,
                    parent_value,
                    (t + 1) as u64,
                    count,
                ),
        decreases k - i,
    {
        match directory_at(&m, i) {
            Some((_, d)) => {
                let row = directory_row(d, metric, parent_value, (i + 1) as u64, count);
                rows.push(row);
            },
            None => {
                assert(false);
            },
        }
        i = i + 1;
    }
    let mut j: usize = 0;
    while j < node.files.len()
        invariant
            k == entries.len(),
            j <= node.files.len(),
            rows.len() == k + j,
            forall|t: int|
                0 <= t < k ==> (#[trigger] rows@[t])@ == dir_row(
                    entries[t].1,
                    metric,
                    parent_value,
                    (t + 1) as u64,
                    count,
                ),
            forall|t: int|
                0 <= t < j ==> (#[trigger] rows@[k + t])@ == file_row(node.files@[t], metric, parent_value),
            count == k as u64,
            parent_value == metric.spec_value(&node.totals),
        decreases node.files.len() - j,
    {
        let row = file_row_parts(&node.files[j], metric, parent_value);
        rows.push(row);
        j = j + 1;
    }
    rows
}

// ---------------------------------------------------------------------------
// Breadcrumbs
// ---------------------------------------------------------------------------

/// One step of the trail from the scan root to the current directory.
#[derive(Clone, Debug)]
pub struct BreadcrumbSegment {
    pub label: String,
    pub path: String,
}

/// The trail: the root (labelled by its file name, or its whole path), then
/// each component of `current` past `root`, with the path up to it; only the
/// root when `current` does not lie below `root`.
pub open spec fn breadcrumb(root: Seq<char>, current: Seq<char>) -> Seq<(Seq<char>, Seq<char>)> {
    let first = (
        match file_name(root) {
            Some(n) => n,
            None => root,
        },
        root,
    );
    match relative_components(current, root) {
        Some(rel) => seq![first] + Seq::new(
            rel.len(),
            |k: int| (rel[k], join_path(root, rel.take(k + 1))),
        ),
        None => seq![first],
    }
}

pub open spec fn segment_views(v: Seq<BreadcrumbSegment>) -> Seq<(Seq<char>, Seq<char>)> {
    v.map_values(|s: BreadcrumbSegment| (s.label@, s.path@))
}

pub fn breadcrumb_segments(root: &str, current: &str) -> (r: Vec<BreadcrumbSegment>)
    ensures
        segment_views(r@) == breadcrumb(root@, current@),
{
    let root_chars = to_chars(root);
    let label = match file_name_chars(&root_chars) {
        Some(n) => from_chars(&n),
        None => root.to_owned(),
    };
    let mut segments: Vec<BreadcrumbSegment> = Vec::new();
    segments.push(BreadcrumbSegment { label, path: root.to_owned() });
    let ghost first = segment_views(segments@)[0];
    let pc = path_components(&to_chars(current));
    let rc = path_components(&root_chars);
    if !component_prefix_exec(&rc, &pc) {
        assert(segment_views(segments@) =~= seq![first]);
        return segments;
    }
    let ghost rel = texts(pc@).skip(rc.len() as int);
    let ghost tail = Seq::new(rel.len(), |k: int| (rel[k], join_path(root@, rel.take(k + 1))));
    let mut path = copy_chars(&root_chars);
    let mut k: usize = rc.len();
    assert(rel.take(0) =~= Seq::<Seq<char>>::empty());
    assert(segment_views(segments@) =~= seq![first] + tail.take(0));
    while k < pc.len()
        invariant
            rc.len() <= k <= pc.len(),
            rel == texts(pc@).skip(rc.len() as int),
            rel.len() == pc.len() - rc.len(),
            tail == Seq::new(rel.len(), |j: int| (rel[j], join_path(root@, rel.take(j + 1)))),
            path@ == join_path(root@, rel.take(k - rc.len())),
            segment_views(segments@) == seq![first] + tail.take(k - rc.len()),
        decreases pc.len() - k,
    {
        assert(rel[k - rc.len()] == pc@[k as int]@);
        push_component(&mut path, &pc[k]);
        assert(rel.take(k + 1 - rc.len()).drop_last() =~= rel.take(k - rc.len()));
        assert(rel.take(k + 1 - rc.len()).last() == rel[k - rc.len()]);
        assert(path@ == join_path(root@, rel.take(k + 1 - rc.len())));
        let ghost prev = segments@;
        segments.push(BreadcrumbSegment { label: from_chars(&pc[k]), path: from_chars(&path) });
        assert(segment_views(segments@) =~= segment_views(prev).push(
            (rel[k - rc.len()], join_path(root@, rel.take(k + 1 - rc.len()))),
        ));
        assert(tail[k - rc.len()] == (rel[k - rc.len()], join_path(root@, rel.take(k + 1 - rc.len()))));
        assert(tail.take(k + 1 - rc.len()) =~= tail.take(k - rc.len()).push(tail[k - rc.len()]));
        k = k + 1;
        assert(segment_views(segments@) =~= seq![first] + tail.take(k - rc.len()));
    }
    assert(tail.take(pc.len() - rc.len()) =~= tail);
    segments
}

// ---------------------------------------------------------------------------
// Finding a directory
// ---------------------------------------------------------------------------

/// The first directory, in pre-order, whose path has the components of
/// `target` (`Path` equality).
pub open spec fn find_in(node: DirectoryNode, target: Seq<Seq<char>>) -> Option<DirectoryNode>
    decreases node, node.children@.len() + 1,
{
    if components(node.path@) == target {
        Some(node)
    } else {
        find_from(node, target, 0)
    }
}

/// The first match among the children of `node` from position `i` on.
pub open spec fn find_from(node: DirectoryNode, target: Seq<Seq<char>>, i: int) -> Option<DirectoryNode>
    decreases node, node.children@.len() - i,
{
    if i < 0 || i >= node.children@.len() {
        None
    } else {
        match find_in(node.children@[i], target) {
            Some(found) => Some(found),
            None => find_from(node, target, i + 1),
        }
    }
}

/// A directory found by path has that path, component by component.
pub proof fn lemma_found_node_has_path(node: DirectoryNode, target: Seq<Seq<char>>)
    ensures
        find_in(node, target) matches Some(found) ==> components(found.path@) == target,
    decreases node, node.children@.len() + 1,
{
    if components(node.path@) != target {
        lemma_found_from_has_path(node, target, 0);
    }
}

proof fn lemma_found_from_has_path(node: DirectoryNode, target: Seq<Seq<char>>, i: int)
    ensures
        find_from(node, target, i) matches Some(found) ==> components(found.path@) == target,
    decreases node, node.children@.len() - i,
{
    if 0 <= i < node.children@.len() {
        lemma_found_node_has_path(node.children@[i], target);
        lemma_found_from_has_path(node, target, i + 1);
    }
}

fn find_by_components<'a>(node: &'a DirectoryNode, target: &Vec<Vec<char>>) -> (r: Option<&'a DirectoryNode>)
    ensures
        find_in(*node, texts(target@)) == match r {
            Some(n) => Some(*n),
            None => None::<DirectoryNode>,
        },
    decreases node, node.children@.len() + 1,
{
    let pc = path_components(&to_chars(node.path.as_str()));
    if components_equal(&pc, target) {
        return Some(node);
    }
    let mut i: usize = 0;
    while i < node.children.len()
        invariant
            i <= node.children.len(),
            find_in(*node, texts(target@)) == find_from(*node, texts(target@), i as int),
        decreases node.children.len() - i,
    {
        match find_by_components(&node.children[i], target) {
            Some(found) => {
                return Some(found);
            },
            None => {},
        }
        i = i + 1;
    }
    None
}

pub(crate) fn components_equal(a: &Vec<Vec<char>>, b: &Vec<Vec<char>>) -> (r: bool)
    ensures
        r == (texts(a@) == texts(b@)),
{
    if a.len() != b.len() {
        assert(texts(a@).len() != texts(b@).len());
        return false;
    }
    let mut i: usize = 0;
    while i < a.len()
        invariant
            a.len() == b.len(),
            i <= a.len(),
            forall|j: int| 0 <= j < i ==> a@[j]@ == b@[j]@,
        decreases a.len() - i,
    {
        if !chars_eq(&a[i], &b[i]) {
            assert(texts(a@)[i as int] != texts(b@)[i as int]);
            return false;
        }
        i = i + 1;
    }
    assert(texts(a@) =~= texts(b@));
    true
}

/// The directory of the tree whose path equals `path` component by
/// component, searching the node, then its children in order, depth first.
pub fn find_node<'a>(node: &'a DirectoryNode, path: &str) -> (r: Option<&'a DirectoryNode>)
    ensures
        find_in(*node, components(path@)) == match r {
            Some(n) => Some(*n),
            None => None::<DirectoryNode>,
        },
{
    let target = path_components(&to_chars(path));
    find_by_components(node, &target)
}

} // verus!
