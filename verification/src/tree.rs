use vstd::prelude::*;
use crate::paths::{depth_below, depth_below_exec, file_name, file_name_chars};
use crate::text::{from_chars, to_chars};

verus! {

/// Which count a directory or file is sized by.
#[derive(Clone, Copy, Debug, PartialEq, Eq, Structural)]
pub enum SizeMetric {
    TotalLoc,
    CodeLoc,
    FileCount,
}

/// Line and file counts of a file or of everything under a directory.
#[derive(Clone, Copy, Debug, PartialEq, Eq, Structural)]
pub struct CodeTotals {
    pub files: u64,
    pub code_loc: u64,
    pub comment_loc: u64,
    pub blank_loc: u64,
    pub total_loc: u64,
}

impl SizeMetric {
    /// The count that this metric selects from `totals`.
    pub open spec fn spec_value(self, totals: &CodeTotals) -> u64 {
        match self {
            SizeMetric::TotalLoc => totals.total_loc,
            SizeMetric::CodeLoc => totals.code_loc,
            SizeMetric::FileCount => totals.files,
        }
    }

    #[verifier::when_used_as_spec(spec_value)]
    pub fn value(self, totals: &CodeTotals) -> (r: u64)
        ensures
            r == self.spec_value(totals),
    {
        match self {
            SizeMetric::TotalLoc => totals.total_loc,
            SizeMetric::CodeLoc => totals.code_loc,
            SizeMetric::FileCount => totals.files,
        }
    }

    /// The name a metric is shown under.
    pub open spec fn spec_label(self) -> Seq<char> {
        match self {
            SizeMetric::TotalLoc => "Total LOC"@,
            SizeMetric::CodeLoc => "Code LOC"@,
            SizeMetric::FileCount => "Files"@,
        }
    }

    pub fn label(self) -> (r: &'static str)
        ensures
            r@ == self.spec_label(),
    {
        match self {
            SizeMetric::TotalLoc => "Total LOC",
            SizeMetric::CodeLoc => "Code LOC",
            SizeMetric::FileCount => "Files",
        }
    }
}

/// The metric at a position of the metric list: code lines at 1, file count
/// at 2; any other position selects total lines.
pub open spec fn metric_at(index: i32) -> SizeMetric {
    if index == 1 {
        SizeMetric::CodeLoc
    } else if index == 2 {
        SizeMetric::FileCount
    } else {
        SizeMetric::TotalLoc
    }
}

pub fn metric_from_index(index: i32) -> (r: SizeMetric)
    ensures
        r == metric_at(index),
{
    match index {
        1 => SizeMetric::CodeLoc,
        2 => SizeMetric::FileCount,
        _ => SizeMetric::TotalLoc,
    }
}

impl Default for SizeMetric {
    fn default() -> (r: Self)
        ensures
            r == SizeMetric::TotalLoc,
    {
        SizeMetric::TotalLoc
    }
}

impl CodeTotals {
    pub open spec fn zero() -> CodeTotals {
        CodeTotals { files: 0, code_loc: 0, comment_loc: 0, blank_loc: 0, total_loc: 0 }
    }

    /// Field-wise sum, in unbounded integers.
    pub open spec fn sum_fits(a: CodeTotals, b: CodeTotals) -> bool {
        &&& a.files + b.files <= u64::MAX
        &&& a.code_loc + b.code_loc <= u64::MAX
        &&& a.comment_loc + b.comment_loc <= u64::MAX
        &&& a.blank_loc + b.blank_loc <= u64::MAX
        &&& a.total_loc + b.total_loc <= u64::MAX
    }

    pub open spec fn spec_add(a: CodeTotals, b: CodeTotals) -> CodeTotals {
        CodeTotals {
            files: (a.files + b.files) as u64,
            code_loc: (a.code_loc + b.code_loc) as u64,
            comment_loc: (a.comment_loc + b.comment_loc) as u64,
            blank_loc: (a.blank_loc + b.blank_loc) as u64,
            total_loc: (a.total_loc + b.total_loc) as u64,
        }
    }

    pub fn add_assign(&mut self, other: &Self)
        requires
            CodeTotals::sum_fits(*old(self), *other),
        ensures
            *final(self) == CodeTotals::spec_add(*old(self), *other),
    {
        self.files = self.files + other.files;
        self.code_loc = self.code_loc + other.code_loc;
        self.comment_loc = self.comment_loc + other.comment_loc;
        self.blank_loc = self.blank_loc + other.blank_loc;
        self.total_loc = self.total_loc + other.total_loc;
    }
}

impl Default for CodeTotals {
    fn default() -> (r: Self)
        ensures
            r == CodeTotals::zero(),
    {
        CodeTotals { files: 0, code_loc: 0, comment_loc: 0, blank_loc: 0, total_loc: 0 }
    }
}

/// A language's share of a directory (its counts; percentages are derived by
/// the caller from these and the directory's counts).
#[derive(Clone, Debug)]
pub struct LanguageBreakdown {
    pub language: String,
    pub color: Option<String>,
    pub totals: CodeTotals,
}

/// The plain contents of a `LanguageBreakdown`.
pub struct LanguageBreakdownView {
    pub language: Seq<char>,
    pub color: Option<Seq<char>>,
    pub totals: CodeTotals,
}

pub open spec fn opt_view(o: Option<String>) -> Option<Seq<char>> {
    match o {
        Some(s) => Some(s@),
        None => None,
    }
}

impl View for LanguageBreakdown {
    type V = LanguageBreakdownView;

    open spec fn view(&self) -> LanguageBreakdownView {
        LanguageBreakdownView { language: self.language@, color: opt_view(self.color), totals: self.totals }
    }
}

/// A counted file.
#[derive(Clone, Debug)]
pub struct FileNode {
    pub path: String,
    pub name: String,
    pub totals: CodeTotals,
    pub language: String,
    pub color: Option<String>,
}

/// The plain contents of a `FileNode`.
pub struct FileNodeView {
    pub path: Seq<char>,
    pub name: Seq<char>,
    pub totals: CodeTotals,
    pub language: Seq<char>,
    pub color: Option<Seq<char>>,
}

impl View for FileNode {
    type V = FileNodeView;

    open spec fn view(&self) -> FileNodeView {
        FileNodeView {
            path: self.path@,
            name: self.name@,
            totals: self.totals,
            language: self.language@,
            color: opt_view(self.color),
        }
    }
}

/// A directory with the counts of everything beneath it, its languages heaviest
/// first, its files, and its subdirectories.
#[derive(Debug)]
pub struct DirectoryNode {
    pub path: String,
    pub name: String,
    pub depth: usize,
    pub totals: CodeTotals,
    pub languages: Vec<LanguageBreakdown>,
    pub prominent_language: Option<String>,
    pub files: Vec<FileNode>,
    pub children: Vec<DirectoryNode>,
}

impl DirectoryNode {
    /// An empty directory node: named by the path's file name (or the whole
    /// path when it has none), at the depth of `path` below `root`.
    pub fn new(path: String, root: &str) -> (r: Self)
        ensures
            r.path == path,
            r.name@ == match file_name(path@) {
                Some(n) => n,
                None => path@,
            },
            r.depth == depth_below(path@, root@),
            r.totals == CodeTotals::zero(),
            r.languages@.len() == 0,
            r.prominent_language is None,
            r.files@.len() == 0,
            r.children@.len() == 0,
    {
        let path_chars = to_chars(path.as_str());
        let root_chars = to_chars(root);
        let depth = depth_below_exec(&path_chars, &root_chars);
        let name = match file_name_chars(&path_chars) {
            Some(n) => from_chars(&n),
            None => path.clone(),
        };
        DirectoryNode {
            path,
            name,
            depth,
            totals: CodeTotals { files: 0, code_loc: 0, comment_loc: 0, blank_loc: 0, total_loc: 0 },
            languages: Vec::new(),
            prominent_language: None,
            files: Vec::new(),
            children: Vec::new(),
        }
    }
}

pub open spec fn breakdown_views(v: Seq<LanguageBreakdown>) -> Seq<LanguageBreakdownView> {
    v.map_values(|b: LanguageBreakdown| b@)
}

pub open spec fn file_views(v: Seq<FileNode>) -> Seq<FileNodeView> {
    v.map_values(|f: FileNode| f@)
}

/// Two trees that hold the same contents, directory by directory.
pub open spec fn same_tree(a: DirectoryNode, b: DirectoryNode) -> bool
    decreases a,
{
    &&& a.path@ == b.path@
    &&& a.name@ == b.name@
    &&& a.depth == b.depth
    &&& a.totals == b.totals
    &&& breakdown_views(a.languages@) == breakdown_views(b.languages@)
    &&& opt_view(a.prominent_language) == opt_view(b.prominent_language)
    &&& file_views(a.files@) == file_views(b.files@)
    &&& a.children@.len() == b.children@.len()
    &&& forall|i: int|
        0 <= i < a.children@.len() ==> same_tree(#[trigger] a.children@[i], b.children@[i])
}

fn copy_opt(o: &Option<String>) -> (r: Option<String>)
    ensures
        opt_view(r) == opt_view(*o),
{
    match o {
        Some(s) => Some(s.clone()),
        None => None,
    }
}

impl LanguageBreakdown {
    pub fn copy(&self) -> (r: Self)
        ensures
            r@ == self@,
    {
        LanguageBreakdown { language: self.language.clone(), color: copy_opt(&self.color), totals: self.totals }
    }
}

impl FileNode {
    pub fn copy(&self) -> (r: Self)
        ensures
            r@ == self@,
    {
        FileNode {
            path: self.path.clone(),
            name: self.name.clone(),
            totals: self.totals,
            language: self.language.clone(),
            color: copy_opt(&self.color),
        }
    }
}

impl DirectoryNode {
    /// A copy of the whole tree below this directory.
    pub fn copy(&self) -> (r: Self)
        ensures
            same_tree(r, *self),
        decreases self,
    {
        let mut languages: Vec<LanguageBreakdown> = Vec::new();
        let mut i: usize = 0;
        while i < self.languages.len()
            invariant
                i <= self.languages.len(),
                languages.len() == i,
                breakdown_views(languages@) == breakdown_views(self.languages@.take(i as int)),
            decreases self.languages.len() - i,
        {
            let ghost prev = languages@;
            languages.push(self.languages[i].copy());
            assert(breakdown_views(languages@) =~= breakdown_views(prev).push(self.languages@[i as int]@));
            assert(breakdown_views(self.languages@.take(i + 1)) =~= breakdown_views(
                self.languages@.take(i as int),
            ).push(self.languages@[i as int]@));
            i = i + 1;
            assert(breakdown_views(languages@) =~= breakdown_views(self.languages@.take(i as int)));
        }
        assert(self.languages@.take(self.languages.len() as int) =~= self.languages@);
        let mut files: Vec<FileNode> = Vec::new();
        let mut i: usize = 0;
        while i < self.files.len()
            invariant
                i <= self.files.len(),
                files.len() == i,
                file_views(files@) == file_views(self.files@.take(i as int)),
            decreases self.files.len() - i,
        {
            let ghost prev = files@;
            files.push(self.files[i].copy());
            assert(file_views(files@) =~= file_views(prev).push(self.files@[i as int]@));
            assert(file_views(self.files@.take(i + 1)) =~= file_views(self.files@.take(i as int)).push(
                self.files@[i as int]@,
            ));
            i = i + 1;
            assert(file_views(files@) =~= file_views(self.files@.take(i as int)));
        }
        assert(self.files@.take(self.files.len() as int) =~= self.files@);
        let mut children: Vec<DirectoryNode> = Vec::new();
        let mut i: usize = 0;
        while i < self.children.len()
            invariant
                i <= self.children.len(),
                children.len() == i,
                forall|j: int| 0 <= j < i ==> same_tree(#[trigger] children@[j], self.children@[j]),
            decreases self.children.len() - i,
        {
            let c = self.children[i].copy();
            children.push(c);
            i = i + 1;
        }
        DirectoryNode {
            path: self.path.clone(),
            name: self.name.clone(),
            depth: self.depth,
            totals: self.totals,
            languages,
            prominent_language: copy_opt(&self.prominent_language),
            files,
            children,
        }
    }
}

impl Clone for DirectoryNode {
    /// A copy of the whole tree below this directory (see `copy`).
    fn clone(&self) -> (r: Self)
        ensures
            same_tree(r, *self),
    {
        self.copy()
    }
}

} // verus!
