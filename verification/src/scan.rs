//! What a scan computes once the walk has found the files: line counts of a
//! file's text, and the directory tree that aggregates per-file counts.
use vstd::prelude::*;
use crate::text::{
    chars_starts_with, copy_chars, from_chars, lemma_split_on_nonempty, split_chars, split_on,
    starts_with, texts, to_chars, trim, CharClass,
    trim_chars,
};
use crate::filter::ScanFilters;
use crate::treemap::{children_heaviest_first, heaviest_first};
use indexmap::IndexMap;
use crate::language::{color_of, path_language, LanguageDefinition, LanguageRegistry};
use crate::paths::{
    lemma_join_adds_components, lemma_parent_drops_last_component, parent, component_prefix_exec, components, extension, extension_chars, file_name, file_name_chars, is_component_prefix, is_plain_name,
    join_path, path_components, push_component,
};
use crate::sort::{
    lemma_sort_desc_keeps, lemma_sort_desc_map, lemma_sum_by_insert, payloads, sort_by_weight_desc,
    sort_desc, sum_by,
};
use crate::tree::{
    breakdown_views, file_views, opt_view, same_tree, CodeTotals, DirectoryNode, FileNode, FileNodeView, LanguageBreakdown,
    LanguageBreakdownView, SizeMetric,
};

verus! {

// ---------------------------------------------------------------------------
// Scan requests
// ---------------------------------------------------------------------------

/// Where the files of a scan come from: a folder on this machine, or a public
/// HTTPS repository cloned into the cache at `cache_path`.
#[derive(Clone, Debug)]
pub enum ScanSource {
    LocalFolder(String),
    PublicHttpsRepo { url: String, cache_path: String },
}

/// Everything a scan is asked to do: its source, the directory to walk, the
/// filters on what is counted, and the metric that orders the result.
#[derive(Clone, Debug)]
pub struct ScanRequest {
    pub source: ScanSource,
    pub root_path: String,
    pub filters: ScanFilters,
    pub metric: SizeMetric,
}

// ---------------------------------------------------------------------------
// Line counting
// ---------------------------------------------------------------------------

/// How a line of text is counted.
pub enum LineKind {
    Blank,
    Comment,
    Code,
}

/// A trimmed line that opens with a comment marker of a common language.
pub open spec fn is_comment_line(t: Seq<char>) -> bool {
    ||| starts_with(t, seq!['/', '/'])
    ||| starts_with(t, seq!['#'])
    ||| starts_with(t, seq!['-', '-'])
    ||| starts_with(t, seq!['/', '*'])
    ||| starts_with(t, seq!['*'])
}

pub open spec fn line_kind(line: Seq<char>) -> LineKind {
    let t = trim(line);
    if t.len() == 0 {
        LineKind::Blank
    } else if is_comment_line(t) {
        LineKind::Comment
    } else {
        LineKind::Code
    }
}

/// `str::lines`: the pieces between '\n' characters, without the empty piece
/// after a final '\n'. (A '\r' before '\n' stays in its piece here; trimming
/// removes it before a line is classified.)
pub open spec fn text_lines(s: Seq<char>) -> Seq<Seq<char>> {
    let ps = split_on(s, CharClass::Exactly('\n'));
    if ps.last().len() == 0 {
        ps.drop_last()
    } else {
        ps
    }
}

/// Counts of lines of each kind, with `files` set to one.
pub open spec fn line_totals(lines: Seq<Seq<char>>) -> CodeTotals
    decreases lines.len(),
{
    if lines.len() == 0 {
        CodeTotals { files: 1, code_loc: 0, comment_loc: 0, blank_loc: 0, total_loc: 0 }
    } else {
        let t = line_totals(lines.drop_last());
        let t1 = CodeTotals { total_loc: (t.total_loc + 1) as u64, ..t };
        match line_kind(lines.last()) {
            LineKind::Blank => CodeTotals { blank_loc: (t.blank_loc + 1) as u64, ..t1 },
            LineKind::Comment => CodeTotals { comment_loc: (t.comment_loc + 1) as u64, ..t1 },
            LineKind::Code => CodeTotals { code_loc: (t.code_loc + 1) as u64, ..t1 },
        }
    }
}

fn comment_marker_at_start(t: &Vec<char>) -> (r: bool)
    ensures
        r == is_comment_line(t@),
{
    let mut slash2: Vec<char> = Vec::new();
    slash2.push('/');
    slash2.push('/');
    let mut hash: Vec<char> = Vec::new();
    hash.push('#');
    let mut dash2: Vec<char> = Vec::new();
    dash2.push('-');
    dash2.push('-');
    let mut open: Vec<char> = Vec::new();
    open.push('/');
    open.push('*');
    let mut star: Vec<char> = Vec::new();
    star.push('*');
    assert(slash2@ =~= seq!['/', '/']);
    assert(hash@ =~= seq!['#']);
    assert(dash2@ =~= seq!['-', '-']);
    assert(open@ =~= seq!['/', '*']);
    assert(star@ =~= seq!['*']);
    chars_starts_with(t, &slash2) || chars_starts_with(t, &hash) || chars_starts_with(t, &dash2)
        || chars_starts_with(t, &open) || chars_starts_with(t, &star)
}

fn classify_line(line: &Vec<char>) -> (k: LineKind)
    ensures
        k == line_kind(line@),
{
    let t = trim_chars(line);
    if t.len() == 0 {
        LineKind::Blank
    } else if comment_marker_at_start(&t) {
        LineKind::Comment
    } else {
        LineKind::Code
    }
}

/// Counting one more line adds one to the total and one to exactly one kind:
/// blank when it trims to nothing; a comment when its trimmed text opens with
/// "//", "#", "--", "/*" or "*"; code otherwise (a lone '-' or '/' opens code).
pub proof fn lemma_line_counted_by_marker(lines: Seq<Seq<char>>, line: Seq<char>)
    requires
        lines.len() + 1 <= u64::MAX,
    ensures
        ({
            let before = line_totals(lines);
            let after = line_totals(lines.push(line));
            let t = trim(line);
            let comment = (t.len() >= 1 && (t[0] == '#' || t[0] == '*')) || (t.len() >= 2 && ((t[0] == '/'
                && (t[1] == '/' || t[1] == '*')) || (t[0] == '-' && t[1] == '-')));
            &&& after.files == 1
            &&& after.total_loc == before.total_loc + 1
            &&& after.blank_loc == before.blank_loc + if t.len() == 0 { 1int } else { 0int }
            &&& after.comment_loc == before.comment_loc + if t.len() > 0 && comment { 1int } else { 0int }
            &&& after.code_loc == before.code_loc + if t.len() > 0 && !comment { 1int } else { 0int }
        }),
{
    lemma_line_totals_bounds(lines);
    let l2 = lines.push(line);
    assert(l2.drop_last() =~= lines);
    assert(l2.last() == line);
    let t = trim(line);
    let comment = (t.len() >= 1 && (t[0] == '#' || t[0] == '*')) || (t.len() >= 2 && ((t[0] == '/' && (
    t[1] == '/' || t[1] == '*')) || (t[0] == '-' && t[1] == '-')));
    assert(is_comment_line(t) == comment) by {
        if t.len() >= 1 {
            assert(t.subrange(0, 1) =~= seq![t[0]]);
            assert(seq!['#'][0] == '#' && seq!['*'][0] == '*' && seq![t[0]][0] == t[0]);
            if t.subrange(0, 1) == seq!['#'] {
                assert(t.subrange(0, 1)[0] == t[0]);
            }
            if t.subrange(0, 1) == seq!['*'] {
                assert(t.subrange(0, 1)[0] == t[0]);
            }
        }
        if t.len() >= 2 {
            assert(t.subrange(0, 2) =~= seq![t[0], t[1]]);
        }
        assert(starts_with(t, seq!['#']) == (t.len() >= 1 && t[0] == '#'));
        assert(starts_with(t, seq!['*']) == (t.len() >= 1 && t[0] == '*'));
        assert(starts_with(t, seq!['/', '/']) == (t.len() >= 2 && t[0] == '/' && t[1] == '/'));
        assert(starts_with(t, seq!['/', '*']) == (t.len() >= 2 && t[0] == '/' && t[1] == '*'));
        assert(starts_with(t, seq!['-', '-']) == (t.len() >= 2 && t[0] == '-' && t[1] == '-'));
    }
}

/// Every counted line is blank, a comment, or code, and a text is one file.
pub proof fn lemma_line_totals_bounds(lines: Seq<Seq<char>>)
    requires
        lines.len() <= u64::MAX,
    ensures
        line_totals(lines).files == 1,
        line_totals(lines).total_loc == lines.len(),
        line_totals(lines).blank_loc + line_totals(lines).comment_loc + line_totals(
            lines,
        ).code_loc == lines.len(),
    decreases lines.len(),
{
    if lines.len() > 0 {
        lemma_line_totals_bounds(lines.drop_last());
    }
}

/// Counts the lines of a text that no language-aware counter recognized: each
/// line is blank, a comment (it opens with "//", "#", "--", "/*" or "*" once
/// trimmed), or code; `files` is one.
pub fn count_lines(content: &str) -> (r: CodeTotals)
    ensures
        r == line_totals(text_lines(content@)),
{
    let chars = to_chars(content);
    let pieces = split_chars(&chars, CharClass::Exactly('\n'));
    proof {
        lemma_split_on_nonempty(content@, CharClass::Exactly('\n'));
    }
    let ghost lines = text_lines(content@);
    let n: usize = if pieces[pieces.len() - 1].len() == 0 {
        pieces.len() - 1
    } else {
        pieces.len()
    };
    assert(lines.len() == n);
    assert(forall|k: int| 0 <= k < n ==> lines[k] == #[trigger] pieces@[k]@);
    let mut totals = CodeTotals { files: 1, code_loc: 0, comment_loc: 0, blank_loc: 0, total_loc: 0 };
    let mut i: usize = 0;
    assert(lines.take(0) =~= Seq::<Seq<char>>::empty());
    while i < n
        invariant
            i <= n <= pieces.len(),
            n == lines.len(),
            forall|k: int| 0 <= k < n ==> lines[k] == #[trigger] pieces@[k]@,
            totals == line_totals(lines.take(i as int)),
        decreases n - i,
    {
        proof {
            lemma_line_totals_bounds(lines.take(i as int));
            assert(lines.take(i + 1).drop_last() =~= lines.take(i as int));
            assert(lines.take(i + 1).last() == pieces@[i as int]@);
        }
        let kind = classify_line(&pieces[i]);
        totals.total_loc = totals.total_loc + 1;
        match kind {
            LineKind::Blank => {
                totals.blank_loc = totals.blank_loc + 1;
            },
            LineKind::Comment => {
                totals.comment_loc = totals.comment_loc + 1;
            },
            LineKind::Code => {
                totals.code_loc = totals.code_loc + 1;
            },
        }
        i = i + 1;
    }
    assert(lines.take(n as int) =~= lines);
    totals
}

// ---------------------------------------------------------------------------
// Aggregation into a directory tree
// ---------------------------------------------------------------------------

/// A counted file: the directories leading to it below the scan root, its own
/// name, its language, and its counts.
#[derive(Clone, Debug)]
pub struct FileStat {
    pub dirs: Vec<String>,
    pub name: String,
    pub language: String,
    pub totals: CodeTotals,
}

pub open spec fn strings(v: Seq<String>) -> Seq<Seq<char>> {
    v.map_values(|s: String| s@)
}

pub open spec fn dirs_of(f: FileStat) -> Seq<Seq<char>> {
    strings(f.dirs@)
}

/// The file lies in the directory reached by `p` below the root, or deeper.
pub open spec fn is_under(f: FileStat, p: Seq<Seq<char>>) -> bool {
    p.len() <= dirs_of(f).len() && dirs_of(f).take(p.len() as int) == p
}

/// Field-wise sum of the counts of the files under `p`.
pub open spec fn subtotal(files: Seq<FileStat>, p: Seq<Seq<char>>) -> CodeTotals
    decreases files.len(),
{
    if files.len() == 0 {
        CodeTotals::zero()
    } else {
        let t = subtotal(files.drop_last(), p);
        if is_under(files.last(), p) {
            CodeTotals::spec_add(t, files.last().totals)
        } else {
            t
        }
    }
}

/// Adding up the counts of all files, in order, never exceeds `u64`.
pub open spec fn totals_fit(files: Seq<FileStat>) -> bool
    decreases files.len(),
{
    files.len() == 0 || (totals_fit(files.drop_last()) && CodeTotals::sum_fits(
        subtotal(files.drop_last(), Seq::empty()),
        files.last().totals,
    ))
}

pub open spec fn le_totals(a: CodeTotals, b: CodeTotals) -> bool {
    &&& a.files <= b.files
    &&& a.code_loc <= b.code_loc
    &&& a.comment_loc <= b.comment_loc
    &&& a.blank_loc <= b.blank_loc
    &&& a.total_loc <= b.total_loc
}

proof fn lemma_totals_fit_prefix(files: Seq<FileStat>, k: int)
    requires
        totals_fit(files),
        0 <= k <= files.len(),
    ensures
        totals_fit(files.take(k)),
    decreases files.len(),
{
    if k < files.len() {
        assert(files.drop_last().take(k) =~= files.take(k));
        lemma_totals_fit_prefix(files.drop_last(), k);
    } else {
        assert(files.take(k) =~= files);
    }
}

/// Every file is under the empty path.
proof fn lemma_all_under_root(f: FileStat)
    ensures
        is_under(f, Seq::empty()),
{
    assert(dirs_of(f).take(0) =~= Seq::<Seq<char>>::empty());
}

/// The counts under any directory stay within the counts of all files.
proof fn lemma_subtotal_bounded(files: Seq<FileStat>, p: Seq<Seq<char>>)
    requires
        totals_fit(files),
    ensures
        le_totals(subtotal(files, p), subtotal(files, Seq::empty())),
    decreases files.len(),
{
    if files.len() > 0 {
        lemma_subtotal_bounded(files.drop_last(), p);
        lemma_all_under_root(files.last());
    }
}

// Languages under a directory, in the order they are first met.

/// Position of `language` among the entries of `acc`, or -1.
pub open spec fn lang_index(acc: Seq<(Seq<char>, CodeTotals)>, language: Seq<char>) -> int
    decreases acc.len(),
{
    if acc.len() == 0 {
        -1
    } else {
        let k = lang_index(acc.drop_last(), language);
        if k >= 0 {
            k
        } else if acc.last().0 == language {
            acc.len() - 1
        } else {
            -1
        }
    }
}

/// Per-language sums of the counts of the files under `p`, languages in the
/// order of their first file.
pub open spec fn lang_fold(files: Seq<FileStat>, p: Seq<Seq<char>>) -> Seq<(Seq<char>, CodeTotals)>
    decreases files.len(),
{
    if files.len() == 0 {
        Seq::empty()
    } else {
        let acc = lang_fold(files.drop_last(), p);
        let f = files.last();
        if !is_under(f, p) {
            acc
        } else {
            let k = lang_index(acc, f.language@);
            if k < 0 {
                acc.push((f.language@, f.totals))
            } else {
                acc.update(k, (acc[k].0, CodeTotals::spec_add(acc[k].1, f.totals)))
            }
        }
    }
}

proof fn lemma_lang_index(acc: Seq<(Seq<char>, CodeTotals)>, language: Seq<char>)
    ensures
        -1 <= lang_index(acc, language) < acc.len(),
        lang_index(acc, language) >= 0 ==> acc[lang_index(acc, language)].0 == language,
        lang_index(acc, language) < 0 ==> forall|i: int| 0 <= i < acc.len() ==> acc[i].0 != language,
    decreases acc.len(),
{
    if acc.len() > 0 {
        let d = acc.drop_last();
        lemma_lang_index(d, language);
        if lang_index(acc, language) < 0 {
            assert forall|i: int| 0 <= i < acc.len() implies acc[i].0 != language by {
                if i < acc.len() - 1 {
                    assert(acc[i] == d[i]);
                }
            }
        }
    }
}

/// Each language's sum stays within the counts under the directory.
proof fn lemma_lang_fold_bounded(files: Seq<FileStat>, p: Seq<Seq<char>>)
    requires
        totals_fit(files),
    ensures
        forall|i: int|
            0 <= i < lang_fold(files, p).len() ==> le_totals(
                #[trigger] lang_fold(files, p)[i].1,
                subtotal(files, p),
            ),
    decreases files.len(),
{
    if files.len() > 0 {
        let d = files.drop_last();
        lemma_lang_fold_bounded(d, p);
        lemma_subtotal_bounded(d, p);
        lemma_all_under_root(files.last());
        lemma_lang_index(lang_fold(d, p), files.last().language@);
    }
}

// Subdirectory names, kept in code-point order without repeats.

/// Code-point lexicographic order, the order of sibling paths.
pub open spec fn lex_lt(a: Seq<char>, b: Seq<char>) -> bool
    decreases a.len(),
{
    if a.len() == 0 {
        b.len() > 0
    } else if b.len() == 0 {
        false
    } else if a[0] != b[0] {
        (a[0] as u32) < (b[0] as u32)
    } else {
        lex_lt(a.drop_first(), b.drop_first())
    }
}

/// How many names of `acc` come before `c`.
pub open spec fn count_lt(acc: Seq<Seq<char>>, c: Seq<char>) -> nat
    decreases acc.len(),
{
    if acc.len() == 0 {
        0
    } else {
        count_lt(acc.drop_last(), c) + if lex_lt(acc.last(), c) {
            1nat
        } else {
            0nat
        }
    }
}

/// `c` added to the ordered names `acc` unless already there.
pub open spec fn insert_name(acc: Seq<Seq<char>>, c: Seq<char>) -> Seq<Seq<char>> {
    if acc.contains(c) {
        acc
    } else {
        acc.insert(count_lt(acc, c) as int, c)
    }
}

/// The names of the subdirectories of `p` that hold files, in code-point order.
pub open spec fn name_fold(files: Seq<FileStat>, p: Seq<Seq<char>>) -> Seq<Seq<char>>
    decreases files.len(),
{
    if files.len() == 0 {
        Seq::empty()
    } else {
        let acc = name_fold(files.drop_last(), p);
        let f = files.last();
        if is_under(f, p) && dirs_of(f).len() > p.len() {
            insert_name(acc, dirs_of(f)[p.len() as int])
        } else {
            acc
        }
    }
}

/// The files that lie directly in the directory `p`, in order.
pub open spec fn direct_files(files: Seq<FileStat>, p: Seq<Seq<char>>) -> Seq<FileStat>
    decreases files.len(),
{
    if files.len() == 0 {
        Seq::empty()
    } else {
        let acc = direct_files(files.drop_last(), p);
        if dirs_of(files.last()) == p {
            acc.push(files.last())
        } else {
            acc
        }
    }
}

/// What a tree is built from: the scan root's path, the counted files, the
/// metric that orders entries, and the language definitions.
pub struct TreeContext {
    pub root: Seq<char>,
    pub files: Seq<FileStat>,
    pub metric: SizeMetric,
    pub entries: Seq<(Seq<char>, LanguageDefinition)>,
}

/// The subdirectory names of `p`, each with the weight of what lies under it.
pub open spec fn weighted_children(ctx: TreeContext, p: Seq<Seq<char>>) -> Seq<(u64, Seq<char>)> {
    name_fold(ctx.files, p).map_values(
        |c: Seq<char>| (ctx.metric.spec_value(&subtotal(ctx.files, p.push(c))), c),
    )
}

/// The subdirectory names of `p`, heaviest first, ties in code-point order.
pub open spec fn child_order(ctx: TreeContext, p: Seq<Seq<char>>) -> Seq<Seq<char>> {
    sort_desc(weighted_children(ctx, p)).map_values(|x: (u64, Seq<char>)| x.1)
}

pub open spec fn breakdown_of(ctx: TreeContext, e: (Seq<char>, CodeTotals)) -> LanguageBreakdownView {
    LanguageBreakdownView { language: e.0, color: color_of(ctx.entries, e.0), totals: e.1 }
}

/// The languages under `p`, heaviest first, ties in the order first met.
pub open spec fn expected_languages(ctx: TreeContext, p: Seq<Seq<char>>) -> Seq<LanguageBreakdownView> {
    sort_desc(
        lang_fold(ctx.files, p).map_values(|e: (Seq<char>, CodeTotals)| weigh_breakdown(ctx, e)),
    ).map_values(|x: (u64, LanguageBreakdownView)| x.1)
}

pub open spec fn file_node_of(ctx: TreeContext, p: Seq<Seq<char>>, f: FileStat) -> FileNodeView {
    FileNodeView {
        path: join_path(ctx.root, p.push(f.name@)),
        name: f.name@,
        totals: f.totals,
        language: f.language@,
        color: color_of(ctx.entries, f.language@),
    }
}

/// The files directly in `p`, heaviest first, ties in scan order.
pub open spec fn expected_files(ctx: TreeContext, p: Seq<Seq<char>>) -> Seq<FileNodeView> {
    sort_desc(
        direct_files(ctx.files, p).map_values(|f: FileStat| weigh_file(ctx, p, f)),
    ).map_values(|x: (u64, FileNodeView)| x.1)
}

/// A directory's name: its last component, or for the root the root's file
/// name (the root's whole path when it has none).
pub open spec fn dir_name(root: Seq<char>, p: Seq<Seq<char>>) -> Seq<char> {
    if p.len() == 0 {
        match file_name(root) {
            Some(n) => n,
            None => root,
        }
    } else {
        p.last()
    }
}

/// `node` is the directory reached by `p` below the root, built from `ctx`,
/// and so, recursively, is each of its subdirectories.
pub open spec fn node_ok(node: DirectoryNode, ctx: TreeContext, p: Seq<Seq<char>>) -> bool
    decreases node,
{
    let langs = expected_languages(ctx, p);
    let order = child_order(ctx, p);
    &&& node.path@ == join_path(ctx.root, p)
    &&& node.name@ == dir_name(ctx.root, p)
    &&& node.depth == p.len()
    &&& node.totals == subtotal(ctx.files, p)
    &&& breakdown_views(node.languages@) == langs
    &&& opt_view(node.prominent_language) == if langs.len() > 0 {
        Some(langs[0].language)
    } else {
        None
    }
    &&& file_views(node.files@) == expected_files(ctx, p)
    &&& node.children@.len() == order.len()
    &&& forall|i: int|
        0 <= i < node.children@.len() ==> node_ok(#[trigger] node.children@[i], ctx, p.push(order[i]))
}

pub fn copy_strings(v: &Vec<String>) -> (r: Vec<String>)
    ensures
        r@ == v@,
{
    let mut r: Vec<String> = Vec::new();
    let mut i: usize = 0;
    while i < v.len()
        invariant
            i <= v.len(),
            r@ == v@.take(i as int),
        decreases v.len() - i,
    {
        r.push(v[i].clone());
        i = i + 1;
        assert(r@ =~= v@.take(i as int));
    }
    assert(v@.take(v.len() as int) =~= v@);
    r
}

fn under_exec(f: &FileStat, p: &Vec<String>) -> (r: bool)
    ensures
        r == is_under(*f, strings(p@)),
{
    if p.len() > f.dirs.len() {
        return false;
    }
    let mut i: usize = 0;
    while i < p.len()
        invariant
            p.len() <= f.dirs.len(),
            i <= p.len(),
            forall|j: int| 0 <= j < i ==> f.dirs@[j]@ == p@[j]@,
        decreases p.len() - i,
    {
        if f.dirs[i] != p[i] {
            assert(dirs_of(*f).take(p.len() as int)[i as int] != strings(p@)[i as int]);
            return false;
        }
        i = i + 1;
    }
    assert(dirs_of(*f).take(p.len() as int) =~= strings(p@));
    true
}

fn is_direct_exec(f: &FileStat, p: &Vec<String>) -> (r: bool)
    ensures
        r == (dirs_of(*f) == strings(p@)),
{
    if f.dirs.len() != p.len() {
        assert(dirs_of(*f).len() != strings(p@).len());
        return false;
    }
    let under = under_exec(f, p);
    if under {
        assert(dirs_of(*f).take(p.len() as int) =~= dirs_of(*f));
    } else {
        assert(dirs_of(*f) != strings(p@)) by {
            if dirs_of(*f) == strings(p@) {
                assert(dirs_of(*f).take(p.len() as int) =~= dirs_of(*f));
            }
        }
    }
    under
}

/// The counts of the files under `p`.
fn subtotal_exec(files: &Vec<FileStat>, p: &Vec<String>) -> (r: CodeTotals)
    requires
        totals_fit(files@),
    ensures
        r == subtotal(files@, strings(p@)),
{
    let ghost pv = strings(p@);
    let mut t = CodeTotals { files: 0, code_loc: 0, comment_loc: 0, blank_loc: 0, total_loc: 0 };
    let mut i: usize = 0;
    assert(files@.take(0) =~= Seq::<FileStat>::empty());
    while i < files.len()
        invariant
            i <= files.len(),
            totals_fit(files@),
            pv == strings(p@),
            t == subtotal(files@.take(i as int), pv),
        decreases files.len() - i,
    {
        let ghost pre = files@.take(i as int);
        proof {
            assert(files@.take(i + 1).drop_last() =~= pre);
            lemma_totals_fit_prefix(files@, i + 1);
            lemma_subtotal_bounded(pre, pv);
        }
        if under_exec(&files[i], p) {
            t.add_assign(&files[i].totals);
        }
        i = i + 1;
    }
    assert(files@.take(files.len() as int) =~= files@);
    t
}

fn lang_find(acc: &Vec<(String, CodeTotals)>, language: &String) -> (r: Option<usize>)
    ensures
        match r {
            Some(k) => k < acc.len() && lang_index(lang_views(acc@), language@) == k as int,
            None => lang_index(lang_views(acc@), language@) < 0,
        },
{
    let ghost av = lang_views(acc@);
    proof {
        lemma_lang_index(av, language@);
    }
    let mut i: usize = 0;
    while i < acc.len()
        invariant
            i <= acc.len(),
            av == lang_views(acc@),
            forall|j: int| 0 <= j < i ==> av[j].0 != language@,
        decreases acc.len() - i,
    {
        if acc[i].0 == *language {
            proof {
                lemma_lang_index_first(av, language@, i as int);
            }
            return Some(i);
        }
        i = i + 1;
    }
    proof {
        if lang_index(av, language@) >= 0 {
            assert(av[lang_index(av, language@)].0 == language@);
        }
    }
    None
}

pub open spec fn lang_views(acc: Seq<(String, CodeTotals)>) -> Seq<(Seq<char>, CodeTotals)> {
    acc.map_values(|e: (String, CodeTotals)| (e.0@, e.1))
}

proof fn lemma_lang_index_first(acc: Seq<(Seq<char>, CodeTotals)>, language: Seq<char>, i: int)
    requires
        0 <= i < acc.len(),
        acc[i].0 == language,
        forall|j: int| 0 <= j < i ==> acc[j].0 != language,
    ensures
        lang_index(acc, language) == i,
    decreases acc.len(),
{
    if i < acc.len() - 1 {
        let d = acc.drop_last();
        assert forall|j: int| 0 <= j < i implies d[j].0 != language by {
            assert(d[j] == acc[j]);
        }
        lemma_lang_index_first(d, language, i);
    } else {
        let d = acc.drop_last();
        lemma_lang_index(d, language);
        if lang_index(d, language) >= 0 {
            assert(d[lang_index(d, language)] == acc[lang_index(d, language)]);
        }
    }
}

/// Per-language sums of the counts under `p`, in the order first met.
fn language_totals(files: &Vec<FileStat>, p: &Vec<String>) -> (r: Vec<(String, CodeTotals)>)
    requires
        totals_fit(files@),
    ensures
        lang_views(r@) == lang_fold(files@, strings(p@)),
{
    let ghost pv = strings(p@);
    let mut acc: Vec<(String, CodeTotals)> = Vec::new();
    let mut i: usize = 0;
    assert(files@.take(0) =~= Seq::<FileStat>::empty());
    assert(lang_views(acc@) =~= Seq::<(Seq<char>, CodeTotals)>::empty());
    while i < files.len()
        invariant
            i <= files.len(),
            totals_fit(files@),
            pv == strings(p@),
            lang_views(acc@) == lang_fold(files@.take(i as int), pv),
        decreases files.len() - i,
    {
        let ghost pre = files@.take(i as int);
        proof {
            assert(files@.take(i + 1).drop_last() =~= pre);
            lemma_totals_fit_prefix(files@, i + 1);
            lemma_lang_fold_bounded(pre, pv);
            lemma_subtotal_bounded(pre, pv);
            lemma_all_under_root(files@[i as int]);
        }
        if under_exec(&files[i], p) {
            let f = &files[i];
            match lang_find(&acc, &f.language) {
                None => {
                    acc.push((f.language.clone(), f.totals));
                    assert(lang_views(acc@) =~= lang_fold(pre, pv).push((f.language@, f.totals)));
                },
                Some(k) => {
                    let mut t = acc[k].1;
                    assert(le_totals(lang_fold(pre, pv)[k as int].1, subtotal(pre, pv)));
                    t.add_assign(&f.totals);
                    let name = acc[k].0.clone();
                    acc.set(k, (name, t));
                    assert(lang_views(acc@) =~= lang_fold(pre, pv).update(
                        k as int,
                        (lang_fold(pre, pv)[k as int].0, CodeTotals::spec_add(
                            lang_fold(pre, pv)[k as int].1,
                            f.totals,
                        )),
                    ));
                },
            }
        }
        i = i + 1;
    }
    assert(files@.take(files.len() as int) =~= files@);
    acc
}

proof fn lemma_lex_lt_skip(a: Seq<char>, b: Seq<char>, i: int)
    requires
        0 <= i <= a.len(),
        i <= b.len(),
        forall|j: int| 0 <= j < i ==> a[j] == b[j],
    ensures
        lex_lt(a, b) == lex_lt(a.skip(i), b.skip(i)),
    decreases i,
{
    if i == 0 {
        assert(a.skip(0) =~= a);
        assert(b.skip(0) =~= b);
    } else {
        lemma_lex_lt_skip(a.drop_first(), b.drop_first(), i - 1);
        assert(a.drop_first().skip(i - 1) =~= a.skip(i));
        assert(b.drop_first().skip(i - 1) =~= b.skip(i));
    }
}

fn lex_lt_exec(a: &Vec<char>, b: &Vec<char>) -> (r: bool)
    ensures
        r == lex_lt(a@, b@),
{
    let mut i: usize = 0;
    while i < a.len() && i < b.len() && a[i] == b[i]
        invariant
            i <= a.len(),
            i <= b.len(),
            forall|j: int| 0 <= j < i ==> a@[j] == b@[j],
        decreases a.len() - i,
    {
        i = i + 1;
    }
    proof {
        lemma_lex_lt_skip(a@, b@, i as int);
    }
    if i == a.len() {
        i < b.len()
    } else if i == b.len() {
        false
    } else {
        assert(a@.skip(i as int)[0] == a@[i as int]);
        assert(b@.skip(i as int)[0] == b@[i as int]);
        (a[i] as u32) < (b[i] as u32)
    }
}

/// `c` added to the ordered names `acc` unless already there.
fn insert_name_exec(acc: &mut Vec<String>, c: &String)
    ensures
        strings(final(acc)@) == insert_name(strings(old(acc)@), c@),
{
    let ghost av = strings(acc@);
    let cc = to_chars(c.as_str());
    let mut count: usize = 0;
    let mut i: usize = 0;
    assert(av.take(0) =~= Seq::<Seq<char>>::empty());
    while i < acc.len()
        invariant
            i <= acc.len(),
            av == strings(acc@),
            count <= i,
            count == count_lt(av.take(i as int), c@),
            cc@ == c@,
            forall|j: int| 0 <= j < i ==> av[j] != c@,
        decreases acc.len() - i,
    {
        if acc[i] == *c {
            assert(av.contains(c@)) by {
                assert(av[i as int] == c@);
            }
            return;
        }
        let ai = to_chars(acc[i].as_str());
        assert(av.take(i + 1).drop_last() =~= av.take(i as int));
        assert(av.take(i + 1).last() == ai@);
        assert(count_lt(av.take(i + 1), c@) == count_lt(av.take(i as int), c@) + if lex_lt(
            ai@,
            c@,
        ) {
            1nat
        } else {
            0nat
        });
        if lex_lt_exec(&ai, &cc) {
            count = count + 1;
        }
        i = i + 1;
    }
    assert(av.take(acc.len() as int) =~= av);
    assert(!av.contains(c@));
    acc.insert(count, c.clone());
    assert(strings(acc@) =~= av.insert(count as int, c@));
}

/// The ordered names of the subdirectories of `p` that hold files.
fn child_names(files: &Vec<FileStat>, p: &Vec<String>) -> (r: Vec<String>)
    ensures
        strings(r@) == name_fold(files@, strings(p@)),
{
    let ghost pv = strings(p@);
    let mut acc: Vec<String> = Vec::new();
    let mut i: usize = 0;
    assert(files@.take(0) =~= Seq::<FileStat>::empty());
    assert(strings(acc@) =~= Seq::<Seq<char>>::empty());
    while i < files.len()
        invariant
            i <= files.len(),
            pv == strings(p@),
            strings(acc@) == name_fold(files@.take(i as int), pv),
        decreases files.len() - i,
    {
        assert(files@.take(i + 1).drop_last() =~= files@.take(i as int));
        let f = &files[i];
        if under_exec(f, p) && f.dirs.len() > p.len() {
            insert_name_exec(&mut acc, &f.dirs[p.len()]);
        }
        i = i + 1;
    }
    assert(files@.take(files.len() as int) =~= files@);
    acc
}

/// The characters of `root` with each of `p` pushed in turn.
fn render_path(root: &str, p: &Vec<String>) -> (r: Vec<char>)
    ensures
        r@ == join_path(root@, strings(p@)),
{
    let mut out = to_chars(root);
    let mut i: usize = 0;
    assert(strings(p@).take(0) =~= Seq::<Seq<char>>::empty());
    while i < p.len()
        invariant
            i <= p.len(),
            out@ == join_path(root@, strings(p@).take(i as int)),
        decreases p.len() - i,
    {
        let comp = to_chars(p[i].as_str());
        push_component(&mut out, &comp);
        assert(strings(p@).take(i + 1).drop_last() =~= strings(p@).take(i as int));
        i = i + 1;
    }
    assert(strings(p@).take(p.len() as int) =~= strings(p@));
    out
}

fn owned_color(c: Option<&str>) -> (r: Option<String>)
    ensures
        opt_view(r) == match c {
            Some(s) => Some(s@),
            None => None::<Seq<char>>,
        },
{
    match c {
        Some(s) => Some(s.to_owned()),
        None => None,
    }
}

pub open spec fn weigh_breakdown(ctx: TreeContext, e: (Seq<char>, CodeTotals)) -> (u64, LanguageBreakdownView) {
    (ctx.metric.spec_value(&e.1), breakdown_of(ctx, e))
}

pub open spec fn view_weighted_breakdown(x: (u64, LanguageBreakdown)) -> (u64, LanguageBreakdownView) {
    (x.0, x.1@)
}

/// The languages under a directory as breakdowns, heaviest first.
fn language_breakdowns(
    langs: &Vec<(String, CodeTotals)>,
    metric: SizeMetric,
    registry: &LanguageRegistry,
    Ghost(ctx): Ghost<TreeContext>,
) -> (r: Vec<LanguageBreakdown>)
    requires
        ctx.metric == metric,
        ctx.entries == registry.entries(),
    ensures
        breakdown_views(r@) == sort_desc(
            lang_views(langs@).map_values(|e: (Seq<char>, CodeTotals)| weigh_breakdown(ctx, e)),
        ).map_values(|x: (u64, LanguageBreakdownView)| x.1),
{
    let ghost lv = lang_views(langs@);
    let mut items: Vec<(u64, LanguageBreakdown)> = Vec::new();
    let mut i: usize = 0;
    while i < langs.len()
        invariant
            i <= langs.len(),
            lv == lang_views(langs@),
            items.len() == i,
            ctx.metric == metric,
            ctx.entries == registry.entries(),
            items@.map_values(|x: (u64, LanguageBreakdown)| view_weighted_breakdown(x))
                == lv.take(i as int).map_values(
                |e: (Seq<char>, CodeTotals)| weigh_breakdown(ctx, e),
            ),
        decreases langs.len() - i,
    {
        let name = &langs[i].0;
        let t = langs[i].1;
        let color = owned_color(registry.color_for(name.as_str()));
        let b = LanguageBreakdown { language: name.clone(), color, totals: t };
        let ghost prev = items@;
        items.push((metric.value(&t), b));
        assert(view_weighted_breakdown(items@[i as int]) == weigh_breakdown(ctx, lv[i as int]));
        assert(items@.map_values(|x: (u64, LanguageBreakdown)| view_weighted_breakdown(x))
            =~= prev.map_values(|x: (u64, LanguageBreakdown)| view_weighted_breakdown(x)).push(
            view_weighted_breakdown(items@[i as int]),
        ));
        assert(lv.take(i + 1).map_values(|e: (Seq<char>, CodeTotals)| weigh_breakdown(ctx, e))
            =~= lv.take(i as int).map_values(
            |e: (Seq<char>, CodeTotals)| weigh_breakdown(ctx, e),
        ).push(weigh_breakdown(ctx, lv[i as int])));
        i = i + 1;
        assert(items@.map_values(|x: (u64, LanguageBreakdown)| view_weighted_breakdown(x))
            =~= lv.take(i as int).map_values(|e: (Seq<char>, CodeTotals)| weigh_breakdown(ctx, e)));
    }
    assert(lv.take(langs.len() as int) =~= lv);
    let sorted = sort_by_weight_desc(items);
    proof {
        lemma_sort_desc_map(items@, |b: LanguageBreakdown| b@);
        assert(items@.map_values(|x: (u64, LanguageBreakdown)| (x.0, (|b: LanguageBreakdown| b@)(x.1)))
            =~= items@.map_values(|x: (u64, LanguageBreakdown)| view_weighted_breakdown(x)));
    }
    let out = payloads(sorted);
    assert(breakdown_views(out@) =~= sort_desc(
        items@.map_values(|x: (u64, LanguageBreakdown)| view_weighted_breakdown(x)),
    ).map_values(|x: (u64, LanguageBreakdownView)| x.1));
    out
}

pub open spec fn weigh_file(ctx: TreeContext, p: Seq<Seq<char>>, f: FileStat) -> (u64, FileNodeView) {
    (ctx.metric.spec_value(&f.totals), file_node_of(ctx, p, f))
}

pub open spec fn view_weighted_file(x: (u64, FileNode)) -> (u64, FileNodeView) {
    (x.0, x.1@)
}

/// The files directly in `p` as file nodes, heaviest first.
fn file_nodes(
    root: &str,
    files: &Vec<FileStat>,
    p: &Vec<String>,
    metric: SizeMetric,
    registry: &LanguageRegistry,
    Ghost(ctx): Ghost<TreeContext>,
) -> (r: Vec<FileNode>)
    requires
        ctx.root == root@,
        ctx.files == files@,
        ctx.metric == metric,
        ctx.entries == registry.entries(),
    ensures
        file_views(r@) == expected_files(ctx, strings(p@)),
{
    let ghost pv = strings(p@);
    let dir_path = render_path(root, p);
    let mut items: Vec<(u64, FileNode)> = Vec::new();
    let mut i: usize = 0;
    assert(files@.take(0) =~= Seq::<FileStat>::empty());
    assert(items@.map_values(|x: (u64, FileNode)| view_weighted_file(x)) =~= Seq::<
        (u64, FileNodeView),
    >::empty());
    while i < files.len()
        invariant
            i <= files.len(),
            pv == strings(p@),
            dir_path@ == join_path(root@, pv),
            ctx.root == root@,
            ctx.files == files@,
            ctx.metric == metric,
            ctx.entries == registry.entries(),
            items@.map_values(|x: (u64, FileNode)| view_weighted_file(x)) == direct_files(
                files@.take(i as int),
                pv,
            ).map_values(|f: FileStat| weigh_file(ctx, pv, f)),
        decreases files.len() - i,
    {
        let ghost pre = files@.take(i as int);
        assert(files@.take(i + 1).drop_last() =~= pre);
        let f = &files[i];
        if is_direct_exec(f, p) {
            let mut path_chars = copy_chars(&dir_path);
            let name_chars = to_chars(f.name.as_str());
            push_component(&mut path_chars, &name_chars);
            assert(pv.push(f.name@).drop_last() =~= pv);
            let node = FileNode {
                path: from_chars(&path_chars),
                name: f.name.clone(),
                totals: f.totals,
                language: f.language.clone(),
                color: owned_color(registry.color_for(f.language.as_str())),
            };
            let ghost prev = items@;
            items.push((metric.value(&f.totals), node));
            assert(view_weighted_file(items@.last()) == weigh_file(ctx, pv, files@[i as int]));
            assert(items@.map_values(|x: (u64, FileNode)| view_weighted_file(x)) =~= prev.map_values(
                |x: (u64, FileNode)| view_weighted_file(x),
            ).push(view_weighted_file(items@.last())));
            assert(direct_files(files@.take(i + 1), pv).map_values(
                |f: FileStat| weigh_file(ctx, pv, f),
            ) =~= direct_files(pre, pv).map_values(|f: FileStat| weigh_file(ctx, pv, f)).push(
                weigh_file(ctx, pv, files@[i as int]),
            ));
        }
        i = i + 1;
    }
    assert(files@.take(files.len() as int) =~= files@);
    let sorted = sort_by_weight_desc(items);
    proof {
        lemma_sort_desc_map(items@, |b: FileNode| b@);
        assert(items@.map_values(|x: (u64, FileNode)| (x.0, (|b: FileNode| b@)(x.1)))
            =~= items@.map_values(|x: (u64, FileNode)| view_weighted_file(x)));
    }
    let out = payloads(sorted);
    assert(file_views(out@) =~= sort_desc(
        items@.map_values(|x: (u64, FileNode)| view_weighted_file(x)),
    ).map_values(|x: (u64, FileNodeView)| x.1));
    out
}

proof fn lemma_name_fold_source(files: Seq<FileStat>, p: Seq<Seq<char>>)
    ensures
        name_fold(files, p).len() > 0 ==> exists|i: int|
            0 <= i < files.len() && dirs_of(#[trigger] files[i]).len() > p.len(),
    decreases files.len(),
{
    if files.len() > 0 {
        let d = files.drop_last();
        lemma_name_fold_source(d, p);
        if name_fold(d, p).len() > 0 {
            let i = choose|i: int| 0 <= i < d.len() && dirs_of(#[trigger] d[i]).len() > p.len();
            assert(files[i] == d[i]);
        } else if name_fold(files, p).len() > 0 {
            assert(dirs_of(files[files.len() - 1]).len() > p.len());
        }
    }
}

pub open spec fn weigh_child(x: (u64, (Seq<char>, DirectoryNode))) -> (u64, Seq<char>) {
    (x.0, x.1.0)
}

pub open spec fn child_node(x: (u64, (Seq<char>, DirectoryNode))) -> (u64, DirectoryNode) {
    (x.0, x.1.1)
}

/// The directory `p` below the root, with everything under it.
fn materialize(
    root: &str,
    files: &Vec<FileStat>,
    p: &Vec<String>,
    metric: SizeMetric,
    registry: &LanguageRegistry,
    bound: usize,
    Ghost(ctx): Ghost<TreeContext>,
) -> (node: DirectoryNode)
    requires
        ctx.root == root@,
        ctx.files == files@,
        ctx.metric == metric,
        ctx.entries == registry.entries(),
        totals_fit(files@),
        p.len() <= bound,
        forall|i: int| 0 <= i < files.len() ==> (#[trigger] files@[i]).dirs.len() <= bound,
    ensures
        node_ok(node, ctx, strings(p@)),
    decreases bound - p.len(),
{
    let ghost pv = strings(p@);
    let totals = subtotal_exec(files, p);
    let langs = language_totals(files, p);
    let languages = language_breakdowns(&langs, metric, registry, Ghost(ctx));
    let prominent_language = if languages.len() > 0 {
        Some(languages[0].language.clone())
    } else {
        None
    };
    let direct = file_nodes(root, files, p, metric, registry, Ghost(ctx));

    let names = child_names(files, p);
    let ghost nv = strings(names@);
    proof {
        lemma_name_fold_source(files@, pv);
        if names.len() > 0 {
            let i = choose|i: int| 0 <= i < files.len() && dirs_of(#[trigger] files@[i]).len() > pv.len();
            assert(files@[i].dirs.len() <= bound);
        }
    }
    let mut kids: Vec<(u64, DirectoryNode)> = Vec::new();
    let mut i: usize = 0;
    while i < names.len()
        invariant
            i <= names.len(),
            names.len() > 0 ==> p.len() < bound,
            nv == strings(names@),
            nv == name_fold(files@, pv),
            pv == strings(p@),
            ctx.root == root@,
            ctx.files == files@,
            ctx.metric == metric,
            ctx.entries == registry.entries(),
            totals_fit(files@),
            p.len() <= bound,
            forall|k: int| 0 <= k < files.len() ==> (#[trigger] files@[k]).dirs.len() <= bound,
            kids.len() == i,
            forall|j: int|
                0 <= j < i ==> (#[trigger] kids@[j]).0 == weighted_children(ctx, pv)[j].0
                    && node_ok(kids@[j].1, ctx, pv.push(nv[j])),
        decreases names.len() - i,
    {
        let mut q = copy_strings(p);
        q.push(names[i].clone());
        assert(strings(q@) =~= pv.push(nv[i as int]));
        let child = materialize(root, files, &q, metric, registry, bound, Ghost(ctx));
        let w = metric.value(&child.totals);
        kids.push((w, child));
        i = i + 1;
    }
    let ghost s = Seq::new(
        kids@.len(),
        |j: int| (kids@[j].0, (nv[j], kids@[j].1)),
    );
    proof {
        assert(s.map_values(|x: (u64, (Seq<char>, DirectoryNode))| child_node(x)) =~= kids@);
        assert(s.map_values(|x: (u64, (Seq<char>, DirectoryNode))| weigh_child(x))
            =~= weighted_children(ctx, pv));
        lemma_sort_desc_map(s, |y: (Seq<char>, DirectoryNode)| y.1);
        lemma_sort_desc_map(s, |y: (Seq<char>, DirectoryNode)| y.0);
        assert(s.map_values(|x: (u64, (Seq<char>, DirectoryNode))| (x.0, (|y: (Seq<char>, DirectoryNode)| y.1)(x.1)))
            =~= kids@);
        assert(s.map_values(|x: (u64, (Seq<char>, DirectoryNode))| (x.0, (|y: (Seq<char>, DirectoryNode)| y.0)(x.1)))
            =~= weighted_children(ctx, pv));
        lemma_sort_desc_keeps(
            s,
            |x: (u64, (Seq<char>, DirectoryNode))| node_ok(x.1.1, ctx, pv.push(x.1.0)),
        );
    }
    let sorted = sort_by_weight_desc(kids);
    let children = payloads(sorted);
    proof {
        let ss = sort_desc(s);
        crate::sort::lemma_sort_desc_sorted(s);
        assert forall|j: int| 0 <= j < children@.len() implies node_ok(
            #[trigger] children@[j],
            ctx,
            pv.push(child_order(ctx, pv)[j]),
        ) by {
            assert(children@[j] == ss[j].1.1);
            assert(child_order(ctx, pv)[j] == ss[j].1.0);
            assert((|x: (u64, (Seq<char>, DirectoryNode))| node_ok(x.1.1, ctx, pv.push(x.1.0)))(ss[j]));
        }
    }

    let path_chars = render_path(root, p);
    let name = if p.len() == 0 {
        let root_chars = to_chars(root);
        match file_name_chars(&root_chars) {
            Some(n) => from_chars(&n),
            None => root.to_owned(),
        }
    } else {
        p[p.len() - 1].clone()
    };
    DirectoryNode {
        path: from_chars(&path_chars),
        name,
        depth: p.len(),
        totals,
        languages,
        prominent_language,
        files: direct,
        children,
    }
}

/// Whether the counts of `files` can be added up without overflow.
pub fn counts_fit(files: &Vec<FileStat>) -> (r: bool)
    ensures
        r == totals_fit(files@),
{
    let mut sum = CodeTotals { files: 0, code_loc: 0, comment_loc: 0, blank_loc: 0, total_loc: 0 };
    let mut i: usize = 0;
    let ghost empty = Seq::<Seq<char>>::empty();
    assert(files@.take(0) =~= Seq::<FileStat>::empty());
    while i < files.len()
        invariant
            i <= files.len(),
            totals_fit(files@.take(i as int)),
            sum == subtotal(files@.take(i as int), empty),
            empty == Seq::<Seq<char>>::empty(),
        decreases files.len() - i,
    {
        let t = files[i].totals;
        let ghost pre = files@.take(i as int);
        assert(files@.take(i + 1).drop_last() =~= pre);
        proof {
            lemma_all_under_root(files@[i as int]);
        }
        if t.files > u64::MAX - sum.files || t.code_loc > u64::MAX - sum.code_loc || t.comment_loc
            > u64::MAX - sum.comment_loc || t.blank_loc > u64::MAX - sum.blank_loc || t.total_loc
            > u64::MAX - sum.total_loc {
            proof {
                lemma_totals_fit_monotone(files@, i + 1);
            }
            return false;
        }
        sum.add_assign(&t);
        i = i + 1;
    }
    assert(files@.take(files.len() as int) =~= files@);
    true
}

proof fn lemma_totals_fit_monotone(files: Seq<FileStat>, k: int)
    requires
        0 <= k <= files.len(),
        !totals_fit(files.take(k)),
    ensures
        !totals_fit(files),
{
    if totals_fit(files) {
        lemma_totals_fit_prefix(files, k);
    }
}

/// Builds the directory tree of a scan: the root and, recursively, every
/// directory below it that holds a counted file; see `node_ok`.
pub fn build_tree(root: &str, files: &Vec<FileStat>, metric: SizeMetric, registry: &LanguageRegistry) -> (r: DirectoryNode)
    requires
        totals_fit(files@),
    ensures
        node_ok(
            r,
            TreeContext { root: root@, files: files@, metric, entries: registry.entries() },
            Seq::empty(),
        ),
{
    let ghost ctx = TreeContext { root: root@, files: files@, metric, entries: registry.entries() };
    let mut bound: usize = 0;
    let mut i: usize = 0;
    while i < files.len()
        invariant
            i <= files.len(),
            forall|k: int| 0 <= k < i ==> (#[trigger] files@[k]).dirs.len() <= bound,
        decreases files.len() - i,
    {
        if files[i].dirs.len() > bound {
            bound = files[i].dirs.len();
        }
        i = i + 1;
    }
    let top: Vec<String> = Vec::new();
    assert(strings(top@) =~= Seq::<Seq<char>>::empty());
    materialize(root, files, &top, metric, registry, bound, Ghost(ctx))
}

/// The components of `path` past those of `root`, when `root`'s begin it.
pub open spec fn relative_components(path: Seq<char>, root: Seq<char>) -> Option<Seq<Seq<char>>> {
    let pc = components(path);
    let rc = components(root);
    if is_component_prefix(rc, pc) {
        Some(pc.skip(rc.len() as int))
    } else {
        None
    }
}

/// A file's record for the tree, when `path` lies below `root` and every
/// component past `root` is a plain name (which a directory walk yields).
pub fn file_stat(root: &str, path: &str, language: String, totals: CodeTotals) -> (r: Option<FileStat>)
    ensures
        match relative_components(path@, root@) {
            Some(rel) => if rel.len() > 0 && forall|k: int| 0 <= k < rel.len() ==> is_plain_name(#[trigger] rel[k]) {
                r matches Some(f) && dirs_of(f) == rel.drop_last() && f.name@ == rel.last()
                    && f.language == language && f.totals == totals
            } else {
                r is None
            },
            None => r is None,
        },
{
    let pc = path_components(&to_chars(path));
    let rc = path_components(&to_chars(root));
    if !component_prefix_exec(&rc, &pc) || pc.len() == rc.len() {
        return None;
    }
    let ghost rel = texts(pc@).skip(rc.len() as int);
    assert(relative_components(path@, root@) == Some(rel));
    let mut dirs: Vec<String> = Vec::new();
    let mut k: usize = rc.len();
    loop
        invariant
            relative_components(path@, root@) == Some(rel),
            rel.len() == pc.len() - rc.len(),
            rc.len() <= k < pc.len(),
            rc.len() < pc.len(),
            rel == texts(pc@).skip(rc.len() as int),
            k < pc.len() - 1 ==> strings(dirs@) == rel.take(k - rc.len()),
            k == pc.len() - 1 ==> strings(dirs@) == rel.take(k - rc.len()),
            forall|j: int| 0 <= j < k - rc.len() ==> is_plain_name(#[trigger] rel[j]),
        decreases pc.len() - k,
    {
        assert(rel[k - rc.len()] == pc@[k as int]@);
        if !plain_name_exec(&pc[k]) {
            assert(!is_plain_name(rel[k - rc.len()]));
            return None;
        }
        if k + 1 == pc.len() {
            let name = from_chars(&pc[k]);
            assert(rel.drop_last() =~= rel.take(k - rc.len()));
            assert forall|j: int| 0 <= j < rel.len() implies is_plain_name(#[trigger] rel[j]) by {
                if j == k - rc.len() {
                } else {
                    assert(j < k - rc.len());
                }
            }
            return Some(FileStat { dirs, name, language, totals });
        }
        dirs.push(from_chars(&pc[k]));
        k = k + 1;
        assert(strings(dirs@) =~= rel.take(k - rc.len()));
    }
}

/// Where a file under `root` is recorded: the directories below the root
/// and its name, when every component past the root is a plain name.
pub open spec fn stat_place(root: Seq<char>, path: Seq<char>) -> Option<(Seq<Seq<char>>, Seq<char>)> {
    match relative_components(path, root) {
        Some(rel) => if rel.len() > 0 && forall|k: int| 0 <= k < rel.len() ==> is_plain_name(#[trigger] rel[k]) {
            Some((rel.drop_last(), rel.last()))
        } else {
            None
        },
        None => None,
    }
}

/// The plain contents of a `FileStat`.
pub open spec fn stat_view(f: FileStat) -> (Seq<Seq<char>>, Seq<char>, Seq<char>, CodeTotals) {
    (dirs_of(f), f.name@, f.language@, f.totals)
}

/// A file the walk admitted, with its language and its counts.
pub struct CountedFile {
    pub path: String,
    pub language: String,
    pub totals: CodeTotals,
}

/// The records kept from counted files, in order: those with at least one
/// line or one file counted, that lie below the root.
pub open spec fn kept_stats(root: Seq<char>, counted: Seq<CountedFile>) -> Seq<(Seq<Seq<char>>, Seq<char>, Seq<char>, CodeTotals)>
    decreases counted.len(),
{
    if counted.len() == 0 {
        Seq::empty()
    } else {
        let acc = kept_stats(root, counted.drop_last());
        let c = counted.last();
        if c.totals.total_loc > 0 || c.totals.files > 0 {
            match stat_place(root, c.path@) {
                Some((dirs, name)) => acc.push((dirs, name, c.language@, c.totals)),
                None => acc,
            }
        } else {
            acc
        }
    }
}

/// The records of the tree from the files a walk admitted and counted.
pub fn file_stats_of(root: &str, counted: &Vec<CountedFile>) -> (r: Vec<FileStat>)
    ensures
        r@.map_values(|f: FileStat| stat_view(f)) == kept_stats(root@, counted@),
{
    let mut out: Vec<FileStat> = Vec::new();
    let mut i: usize = 0;
    assert(counted@.take(0) =~= Seq::<CountedFile>::empty());
    while i < counted.len()
        invariant
            i <= counted.len(),
            out@.map_values(|f: FileStat| stat_view(f)) == kept_stats(root@, counted@.take(i as int)),
        decreases counted.len() - i,
    {
        let c = &counted[i];
        assert(counted@.take(i + 1).drop_last() =~= counted@.take(i as int));
        assert(counted@.take(i + 1).last() == counted@[i as int]);
        if c.totals.total_loc > 0 || c.totals.files > 0 {
            match file_stat(root, c.path.as_str(), c.language.clone(), c.totals) {
                Some(f) => {
                    let ghost prev = out@;
                    out.push(f);
                    assert(out@.map_values(|f: FileStat| stat_view(f)) =~= prev.map_values(
                        |f: FileStat| stat_view(f),
                    ).push(stat_view(f)));
                },
                None => {},
            }
        }
        i = i + 1;
    }
    assert(counted@.take(counted.len() as int) =~= counted@);
    out
}

fn plain_name_exec(c: &Vec<char>) -> (r: bool)
    ensures
        r == is_plain_name(c@),
{
    if c.len() == 0 {
        return false;
    }
    if c.len() == 1 && c[0] == '.' {
        assert(c@ =~= seq!['.']);
        return false;
    }
    if c.len() == 2 && c[0] == '.' && c[1] == '.' {
        assert(c@ =~= seq!['.', '.']);
        return false;
    }
    assert(c@ != seq!['.']) by {
        if c@ == seq!['.'] {
            assert(c@.len() == 1 && c@[0] == '.');
        }
    }
    assert(c@ != seq!['.', '.']) by {
        if c@ == seq!['.', '.'] {
            assert(c@.len() == 2 && c@[0] == '.' && c@[1] == '.');
        }
    }
    let mut i: usize = 0;
    while i < c.len()
        invariant
            i <= c.len(),
            forall|j: int| 0 <= j < i ==> c@[j] != '/',
        decreases c.len() - i,
    {
        if c[i] == '/' {
            return false;
        }
        i = i + 1;
    }
    true
}

// ---------------------------------------------------------------------------
// What the walk keeps
// ---------------------------------------------------------------------------

/// The directories between the scan root and `path`, each as the path that
/// reaches it: the root with the first `i` components below it pushed, for
/// every `i` from one up to (not including) the entry itself.
pub open spec fn ancestors_allowed(filters: ScanFilters, root: Seq<char>, path: Seq<char>) -> bool {
    match relative_components(path, root) {
        Some(rel) => forall|i: int|
            1 <= i < rel.len() ==> filters.spec_allows_dir(#[trigger] join_path(root, rel.take(i))),
        None => false,
    }
}

/// The language a walked entry is counted under, when it is counted: a file
/// (not a directory) below the root, every directory between the root and it
/// allowed by the directory filters, and its extension and language allowed.
/// A path with no known language counts as "Other".
pub open spec fn admitted_language(
    filters: ScanFilters,
    entries: Seq<(Seq<char>, LanguageDefinition)>,
    root: Seq<char>,
    path: Seq<char>,
    is_dir: bool,
    is_file: bool,
) -> Option<Seq<char>> {
    if is_dir || !is_file {
        None
    } else if !ancestors_allowed(filters, root, path) {
        None
    } else if !filters.spec_allows_extension(extension(path)) {
        None
    } else {
        let language = match path_language(entries, path) {
            Some(l) => l,
            None => "Other"@,
        };
        if filters.spec_allows_language(language) {
            Some(language)
        } else {
            None
        }
    }
}

/// A file is never counted when a directory between the scan root and it is
/// refused by the directory filters, nor when it does not lie below the root;
/// directories themselves are never counted.
pub proof fn lemma_refused_directories_hide_files(
    filters: ScanFilters,
    entries: Seq<(Seq<char>, LanguageDefinition)>,
    root: Seq<char>,
    path: Seq<char>,
    is_dir: bool,
    is_file: bool,
    i: int,
)
    ensures
        is_dir ==> admitted_language(filters, entries, root, path, is_dir, is_file) is None,
        relative_components(path, root) is None ==> admitted_language(filters, entries, root, path, is_dir, is_file) is None,
        (relative_components(path, root) matches Some(rel) && 1 <= i < rel.len() && !filters.spec_allows_dir(
            join_path(root, rel.take(i)),
        )) ==> admitted_language(filters, entries, root, path, is_dir, is_file) is None,
{
}

/// Whether every directory between `root` and `path` passes the directory
/// filters (false when `path` is not below `root`).
fn ancestors_pass(filters: &ScanFilters, root: &str, path: &str) -> (r: bool)
    ensures
        r == ancestors_allowed(*filters, root@, path@),
{
    let root_chars = to_chars(root);
    let pc = path_components(&to_chars(path));
    let rc = path_components(&root_chars);
    if !component_prefix_exec(&rc, &pc) {
        return false;
    }
    let ghost rel = texts(pc@).skip(rc.len() as int);
    assert(relative_components(path@, root@) == Some(rel));
    if pc.len() == rc.len() {
        return true;
    }
    let mut dir = copy_chars(&root_chars);
    let mut k: usize = rc.len();
    assert(rel.take(0) =~= Seq::<Seq<char>>::empty());
    while k + 1 < pc.len()
        invariant
            rc.len() <= k < pc.len(),
            relative_components(path@, root@) == Some(rel),
            rel == texts(pc@).skip(rc.len() as int),
            rel.len() == pc.len() - rc.len(),
            dir@ == join_path(root@, rel.take(k - rc.len())),
            forall|i: int|
                1 <= i <= k - rc.len() ==> filters.spec_allows_dir(#[trigger] join_path(root@, rel.take(i))),
        decreases pc.len() - k,
    {
        assert(rel[k - rc.len()] == pc@[k as int]@);
        push_component(&mut dir, &pc[k]);
        assert(rel.take(k + 1 - rc.len()).drop_last() =~= rel.take(k - rc.len()));
        assert(rel.take(k + 1 - rc.len()).last() == rel[k - rc.len()]);
        assert(dir@ == join_path(root@, rel.take(k + 1 - rc.len())));
        let dir_text = from_chars(&dir);
        if !filters.allows_dir(dir_text.as_str()) {
            let ghost i = k + 1 - rc.len();
            assert(1 <= i < rel.len());
            assert(!filters.spec_allows_dir(join_path(root@, rel.take(i))));
            assert(!ancestors_allowed(*filters, root@, path@)) by {
                let r2 = relative_components(path@, root@)->0;
                assert(r2 == rel);
                assert(join_path(root@, r2.take(i)) == join_path(root@, rel.take(i)));
            }
            return false;
        }
        k = k + 1;
    }
    true
}

pub fn admit_entry(
    filters: &ScanFilters,
    registry: &LanguageRegistry,
    root: &str,
    path: &str,
    is_dir: bool,
    is_file: bool,
) -> (r: Option<String>)
    ensures
        opt_view(r) == admitted_language(*filters, registry.entries(), root@, path@, is_dir, is_file),
{
    if is_dir || !is_file {
        return None;
    }
    if !ancestors_pass(filters, root, path) {
        return None;
    }
    let chars = to_chars(path);
    let ext = extension_chars(&chars);
    let allowed = match &ext {
        Some(e) => {
            let e_text = from_chars(e);
            filters.allows_extension(Some(e_text.as_str()))
        },
        None => filters.allows_extension(None),
    };
    if !allowed {
        return None;
    }
    let language = match registry.language_for_path(path) {
        Some(l) => l,
        None => "Other".to_owned(),
    };
    if !filters.allows_language(language.as_str()) {
        return None;
    }
    Some(language)
}

// ---------------------------------------------------------------------------
// Children listed by path
// ---------------------------------------------------------------------------

/// What an `IndexMap` of directories holds: its (path, directory) pairs in
/// the map's order.
pub uninterp spec fn directory_entries(m: IndexMap<String, DirectoryNode>) -> Seq<(Seq<char>, DirectoryNode)>;

/// Position of the first entry with key `key`, or -1.
pub open spec fn key_index<V>(entries: Seq<(Seq<char>, V)>, key: Seq<char>) -> int
    decreases entries.len(),
{
    if entries.len() == 0 {
        -1
    } else {
        let k = key_index(entries.drop_last(), key);
        if k >= 0 {
            k
        } else if entries.last().0 == key {
            entries.len() - 1
        } else {
            -1
        }
    }
}

/// `IndexMap::insert`: a present key keeps its place and takes the new value;
/// a new key goes last.
pub open spec fn map_insert<V>(entries: Seq<(Seq<char>, V)>, key: Seq<char>, value: V) -> Seq<(Seq<char>, V)> {
    let k = key_index(entries, key);
    if k < 0 {
        entries.push((key, value))
    } else {
        entries.update(k, (key, value))
    }
}

/// The entries after inserting `keys[i]` with `values[i]` in order.
pub open spec fn map_insert_all<V>(keys: Seq<Seq<char>>, values: Seq<V>) -> Seq<(Seq<char>, V)>
    decreases keys.len(),
{
    if keys.len() == 0 {
        Seq::empty()
    } else {
        map_insert(
            map_insert_all(keys.drop_last(), values.take(keys.len() - 1)),
            keys.last(),
            values[keys.len() - 1],
        )
    }
}

/// `IndexMap::new`.
#[verifier::external_body]
fn directory_map_new() -> (m: IndexMap<String, DirectoryNode>)
    ensures
        directory_entries(m) == Seq::<(Seq<char>, DirectoryNode)>::empty(),
{
    IndexMap::new()
}

/// `IndexMap::insert`.
#[verifier::external_body]
fn directory_map_insert(m: &mut IndexMap<String, DirectoryNode>, key: String, value: DirectoryNode)
    ensures
        directory_entries(*final(m)) == map_insert(directory_entries(*old(m)), key@, value),
{
    m.insert(key, value);
}

proof fn lemma_key_index_absent<V>(entries: Seq<(Seq<char>, V)>, key: Seq<char>)
    requires
        forall|i: int| 0 <= i < entries.len() ==> (#[trigger] entries[i]).0 != key,
    ensures
        key_index(entries, key) == -1,
    decreases entries.len(),
{
    if entries.len() > 0 {
        assert forall|i: int| 0 <= i < entries.drop_last().len() implies (
        #[trigger] entries.drop_last()[i]).0 != key by {
            assert(entries.drop_last()[i] == entries[i]);
        }
        lemma_key_index_absent(entries.drop_last(), key);
        assert(entries.last() == entries[entries.len() - 1]);
    }
}

/// Keying values by distinct keys keeps one entry per key, in the keys' order.
pub proof fn lemma_distinct_keys_keep_every_entry<V>(keys: Seq<Seq<char>>, values: Seq<V>)
    requires
        keys.no_duplicates(),
        values.len() == keys.len(),
    ensures
        map_insert_all(keys, values).len() == keys.len(),
        forall|i: int|
            0 <= i < keys.len() ==> #[trigger] map_insert_all(keys, values)[i] == (keys[i], values[i]),
    decreases keys.len(),
{
    if keys.len() > 0 {
        let n = keys.len() - 1;
        let pk = keys.drop_last();
        let pv = values.take(n);
        assert(pk.no_duplicates()) by {
            assert forall|i: int, j: int| 0 <= i < pk.len() && 0 <= j < pk.len() && i != j implies pk[i]
                != pk[j] by {
                assert(pk[i] == keys[i] && pk[j] == keys[j]);
            }
        }
        lemma_distinct_keys_keep_every_entry(pk, pv);
        let prev = map_insert_all(pk, pv);
        assert forall|i: int| 0 <= i < prev.len() implies (#[trigger] prev[i]).0 != keys.last() by {
            assert(prev[i] == (pk[i], pv[i]));
            assert(pk[i] == keys[i]);
            assert(keys[n] == keys.last());
        }
        lemma_key_index_absent(prev, keys.last());
        assert forall|i: int| 0 <= i < keys.len() implies #[trigger] map_insert_all(keys, values)[i] == (
            keys[i],
            values[i],
        ) by {
            if i < n {
                assert(prev[i] == (pk[i], pv[i]));
            }
        }
    }
}

/// Heaviest-first order lists every child position once.
proof fn lemma_heaviest_first_distinct(node: DirectoryNode, metric: SizeMetric)
    ensures
        heaviest_first(node, metric).no_duplicates(),
        heaviest_first(node, metric).len() == node.children@.len(),
{
    let wp = crate::treemap::weighted_positions(node, metric);
    let sorted = sort_desc(wp);
    assert(node.children.len() == node.children@.len());
    assert(wp.no_duplicates()) by {
        assert forall|i: int, j: int| 0 <= i < wp.len() && 0 <= j < wp.len() && i != j implies wp[i]
            != wp[j] by {
            assert(wp[i].1 == i as usize && wp[j].1 == j as usize);
        }
    }
    wp.lemma_multiset_has_no_duplicates();
    crate::sort::lemma_sort_desc_permutes(wp);
    sorted.lemma_multiset_has_no_duplicates_conv();
    assert(sorted.len() == wp.len()) by {
        sorted.to_multiset_ensures();
        wp.to_multiset_ensures();
    }
    let order = heaviest_first(node, metric);
    assert forall|i: int, j: int| 0 <= i < order.len() && 0 <= j < order.len() && i != j implies order[i]
        != order[j] by {
        sorted.to_multiset_ensures();
        wp.to_multiset_ensures();
        assert(sorted.to_multiset().contains(sorted[i]));
        assert(sorted.to_multiset().contains(sorted[j]));
        assert(wp.contains(sorted[i]));
        assert(wp.contains(sorted[j]));
        let a = choose|t: int| 0 <= t < wp.len() && wp[t] == sorted[i];
        let b = choose|t: int| 0 <= t < wp.len() && wp[t] == sorted[j];
        assert(wp[a].1 == a as usize && wp[b].1 == b as usize);
        if order[i] == order[j] {
            assert(sorted[i].1 == sorted[j].1);
            assert(a == b);
            assert(sorted[i] == sorted[j]);
        }
    }
}

/// When no two children share a path, the children listed by path hold one
/// entry per child, heaviest first, each keyed by its path.
pub proof fn lemma_distinct_paths_list_every_child(node: DirectoryNode, metric: SizeMetric, copies: Seq<DirectoryNode>)
    requires
        copies.len() == node.children@.len(),
        forall|i: int, j: int|
            0 <= i < node.children@.len() && 0 <= j < node.children@.len() && i != j ==> (
            #[trigger] node.children@[i]).path@ != (#[trigger] node.children@[j]).path@,
    ensures
        map_insert_all(heaviest_paths(node, metric), copies).len() == node.children@.len(),
        forall|i: int|
            0 <= i < node.children@.len() ==> #[trigger] map_insert_all(heaviest_paths(node, metric), copies)[i]
                == (node.children@[heaviest_first(node, metric)[i] as int].path@, copies[i]),
{
    lemma_heaviest_first_distinct(node, metric);
    let order = heaviest_first(node, metric);
    let keys = heaviest_paths(node, metric);
    assert(forall|t: int| 0 <= t < order.len() ==> order[t] < node.children@.len()) by {
        let wp = crate::treemap::weighted_positions(node, metric);
        let pred = |x: (u64, usize)| x.1 < node.children@.len();
        assert forall|t: int| 0 <= t < wp.len() implies pred(#[trigger] wp[t]) by {}
        crate::sort::lemma_sort_desc_keeps(wp, pred);
        assert forall|t: int| 0 <= t < order.len() implies order[t] < node.children@.len() by {
            assert(pred(sort_desc(wp)[t]));
        }
    }
    assert(keys.no_duplicates()) by {
        assert forall|i: int, j: int| 0 <= i < keys.len() && 0 <= j < keys.len() && i != j implies keys[i]
            != keys[j] by {
            assert(order[i] != order[j]);
            assert(keys[i] == node.children@[order[i] as int].path@);
            assert(keys[j] == node.children@[order[j] as int].path@);
        }
    }
    lemma_distinct_keys_keep_every_entry(keys, copies);
}

/// `IndexMap::len`.
#[verifier::external_body]
pub(crate) fn directory_map_len(m: &IndexMap<String, DirectoryNode>) -> (n: usize)
    ensures
        n == directory_entries(*m).len(),
{
    m.len()
}

/// `IndexMap::get_index`: the pair at position `i`, `None` past the end.
#[verifier::external_body]
pub(crate) fn directory_at(m: &IndexMap<String, DirectoryNode>, i: usize) -> (r: Option<(&String, &DirectoryNode)>)
    ensures
        r matches Some(p) ==> i < directory_entries(*m).len() && p.0@ == directory_entries(*m)[i as int].0
            && *p.1 == directory_entries(*m)[i as int].1,
        r is None ==> i >= directory_entries(*m).len(),
{
    m.get_index(i)
}

/// Paths of the children of `node`, heaviest first.
pub open spec fn heaviest_paths(node: DirectoryNode, metric: SizeMetric) -> Seq<Seq<char>> {
    heaviest_first(node, metric).map_values(|i: usize| node.children@[i as int].path@)
}

/// Copies of a directory's children keyed by path, heaviest first (a later
/// child with the same path would take the earlier one's place).
pub fn flatten_children_for_list(node: &DirectoryNode, metric: SizeMetric) -> (r: IndexMap<String, DirectoryNode>)
    ensures
        exists|copies: Seq<DirectoryNode>|
            {
                &&& copies.len() == node.children@.len()
                &&& forall|i: int|
                    0 <= i < copies.len() ==> same_tree(
                        #[trigger] copies[i],
                        node.children@[heaviest_first(*node, metric)[i] as int],
                    )
                &&& directory_entries(r) == map_insert_all(heaviest_paths(*node, metric), copies)
            },
{
    let order = children_heaviest_first(node, metric);
    let ghost keys = heaviest_paths(*node, metric);
    let mut map = directory_map_new();
    let ghost mut copies: Seq<DirectoryNode> = Seq::empty();
    let mut i: usize = 0;
    assert(keys.take(0) =~= Seq::<Seq<char>>::empty());
    while i < order.len()
        invariant
            i <= order.len(),
            order@ == heaviest_first(*node, metric),
            order@.len() == node.children@.len(),
            forall|t: int| 0 <= t < order@.len() ==> order@[t] < node.children@.len(),
            keys == heaviest_paths(*node, metric),
            copies.len() == i,
            forall|t: int|
                0 <= t < i ==> same_tree(#[trigger] copies[t], node.children@[order@[t] as int]),
            directory_entries(map) == map_insert_all(keys.take(i as int), copies),
        decreases order.len() - i,
    {
        let child = node.children[order[i]].copy();
        let key = child.path.clone();
        proof {
            assert(keys[i as int] == node.children@[order@[i as int] as int].path@);
            assert(keys.take(i + 1).drop_last() =~= keys.take(i as int));
            assert(copies.push(child).take(i as int) =~= copies);
        }
        directory_map_insert(&mut map, key, child);
        proof {
            copies = copies.push(child);
        }
        i = i + 1;
    }
    assert(keys.take(order.len() as int) =~= keys);
    map
}

// ---------------------------------------------------------------------------
// Laws of the tree
// ---------------------------------------------------------------------------

/// In every directory of the tree, subdirectories, files and languages are
/// listed heaviest first by the tree's metric, and the prominent language is
/// the heaviest one.
pub proof fn lemma_entries_heaviest_first(node: DirectoryNode, ctx: TreeContext, p: Seq<Seq<char>>)
    requires
        node_ok(node, ctx, p),
    ensures
        forall|i: int, j: int|
            0 <= i < j < node.children@.len() ==> ctx.metric.spec_value(&node.children@[i].totals)
                >= ctx.metric.spec_value(&node.children@[j].totals),
        forall|i: int, j: int|
            0 <= i < j < node.files@.len() ==> ctx.metric.spec_value(&node.files@[i].totals)
                >= ctx.metric.spec_value(&node.files@[j].totals),
        forall|i: int, j: int|
            0 <= i < j < node.languages@.len() ==> ctx.metric.spec_value(&node.languages@[i].totals)
                >= ctx.metric.spec_value(&node.languages@[j].totals),
        node.languages@.len() > 0 <==> node.prominent_language is Some,
        node.languages@.len() > 0 ==> node.prominent_language->0@ == node.languages@[0].language@,
{
    let m = ctx.metric;
    // Subdirectories.
    let w = weighted_children(ctx, p);
    crate::sort::lemma_sort_desc_sorted(w);
    assert forall|t: int| 0 <= t < w.len() implies (|x: (u64, Seq<char>)|
        x.0 == m.spec_value(&subtotal(ctx.files, p.push(x.1))))(#[trigger] w[t]) by {}
    crate::sort::lemma_sort_desc_keeps(
        w,
        |x: (u64, Seq<char>)| x.0 == m.spec_value(&subtotal(ctx.files, p.push(x.1))),
    );
    let sw = sort_desc(w);
    assert forall|i: int| 0 <= i < node.children@.len() implies m.spec_value(
        &(#[trigger] node.children@[i]).totals,
    ) == sw[i].0 by {
        assert(node_ok(node.children@[i], ctx, p.push(child_order(ctx, p)[i])));
        assert(child_order(ctx, p)[i] == sw[i].1);
        assert((|x: (u64, Seq<char>)| x.0 == m.spec_value(&subtotal(ctx.files, p.push(x.1))))(sw[i]));
    }
    // Files.
    let fs = direct_files(ctx.files, p).map_values(|f: FileStat| weigh_file(ctx, p, f));
    crate::sort::lemma_sort_desc_sorted(fs);
    assert forall|t: int| 0 <= t < fs.len() implies (|x: (u64, FileNodeView)| x.0 == m.spec_value(&x.1.totals))(
        #[trigger] fs[t],
    ) by {}
    crate::sort::lemma_sort_desc_keeps(fs, |x: (u64, FileNodeView)| x.0 == m.spec_value(&x.1.totals));
    let sf = sort_desc(fs);
    assert(expected_files(ctx, p) == sf.map_values(|x: (u64, FileNodeView)| x.1));
    assert(file_views(node.files@).len() == node.files@.len());
    assert(sf.len() == node.files@.len());
    assert forall|i: int| 0 <= i < node.files@.len() implies m.spec_value(
        &(#[trigger] node.files@[i]).totals,
    ) == sf[i].0 by {
        assert(file_views(node.files@)[i] == node.files@[i]@);
        assert(expected_files(ctx, p)[i] == sf[i].1);
        assert((|x: (u64, FileNodeView)| x.0 == m.spec_value(&x.1.totals))(sf[i]));
    }
    // Languages.
    let ls = lang_fold(ctx.files, p).map_values(|e: (Seq<char>, CodeTotals)| weigh_breakdown(ctx, e));
    crate::sort::lemma_sort_desc_sorted(ls);
    assert forall|t: int| 0 <= t < ls.len() implies (|x: (u64, LanguageBreakdownView)| x.0 == m.spec_value(
        &x.1.totals,
    ))(#[trigger] ls[t]) by {}
    crate::sort::lemma_sort_desc_keeps(
        ls,
        |x: (u64, LanguageBreakdownView)| x.0 == m.spec_value(&x.1.totals),
    );
    let sl = sort_desc(ls);
    assert forall|i: int| 0 <= i < node.languages@.len() implies m.spec_value(
        &(#[trigger] node.languages@[i]).totals,
    ) == sl[i].0 by {
        assert(breakdown_views(node.languages@)[i] == node.languages@[i]@);
        assert((|x: (u64, LanguageBreakdownView)| x.0 == m.spec_value(&x.1.totals))(sl[i]));
    }
    if node.languages@.len() > 0 {
        assert(breakdown_views(node.languages@)[0] == node.languages@[0]@);
    }
}

/// One of the five counts: 0 files, 1 code, 2 comments, 3 blanks, 4 total lines.
pub open spec fn field(t: CodeTotals, k: int) -> int {
    if k == 0 {
        t.files as int
    } else if k == 1 {
        t.code_loc as int
    } else if k == 2 {
        t.comment_loc as int
    } else if k == 3 {
        t.blank_loc as int
    } else {
        t.total_loc as int
    }
}

/// A weight of a counted file: count `k` of its totals.
pub open spec fn field_weight(k: int) -> spec_fn(FileStat) -> int {
    |f: FileStat| field(f.totals, k)
}

/// A weight summed over the files under `p`, without bound.
pub open spec fn under_sum(files: Seq<FileStat>, p: Seq<Seq<char>>, wt: spec_fn(FileStat) -> int) -> int
    decreases files.len(),
{
    if files.len() == 0 {
        0
    } else {
        under_sum(files.drop_last(), p, wt) + if is_under(files.last(), p) {
            wt(files.last())
        } else {
            0
        }
    }
}

/// A weight summed over the subdirectories `names` of `p`.
pub open spec fn names_sum(files: Seq<FileStat>, names: Seq<Seq<char>>, p: Seq<Seq<char>>, wt: spec_fn(FileStat) -> int) -> int {
    sum_by(names, |c: Seq<char>| under_sum(files, p.push(c), wt))
}

/// A weight summed over the files directly in `p`.
pub open spec fn direct_sum(files: Seq<FileStat>, p: Seq<Seq<char>>, wt: spec_fn(FileStat) -> int) -> int {
    sum_by(direct_files(files, p), wt)
}

proof fn lemma_under_child(f: FileStat, p: Seq<Seq<char>>, c: Seq<char>)
    ensures
        is_under(f, p.push(c)) <==> (is_under(f, p) && dirs_of(f).len() > p.len() && dirs_of(f)[p.len() as int] == c),
{
    let d = dirs_of(f);
    let n = p.len() as int;
    if is_under(f, p.push(c)) {
        assert(d.take(n + 1) == p.push(c));
        assert(d.take(n) =~= d.take(n + 1).drop_last());
        assert(p.push(c).drop_last() =~= p);
        assert(d.take(n) == p);
        assert(d.take(n + 1)[n] == d[n]);
        assert(p.push(c)[n] == c);
    }
    if is_under(f, p) && d.len() > p.len() && d[p.len() as int] == c {
        assert(d.take(p.len() as int + 1) =~= p.push(c));
    }
}

proof fn lemma_direct_is_under(f: FileStat, p: Seq<Seq<char>>)
    ensures
        (dirs_of(f) == p) <==> (is_under(f, p) && dirs_of(f).len() == p.len()),
{
    if is_under(f, p) && dirs_of(f).len() == p.len() {
        assert(dirs_of(f).take(p.len() as int) =~= dirs_of(f));
    }
    if dirs_of(f) == p {
        assert(dirs_of(f).take(p.len() as int) =~= dirs_of(f));
    }
}

proof fn lemma_count_lt_bound(acc: Seq<Seq<char>>, c: Seq<char>)
    ensures
        count_lt(acc, c) <= acc.len(),
    decreases acc.len(),
{
    if acc.len() > 0 {
        lemma_count_lt_bound(acc.drop_last(), c);
    }
}

proof fn lemma_insert_name_members(acc: Seq<Seq<char>>, c: Seq<char>)
    ensures
        insert_name(acc, c).contains(c),
        forall|x: Seq<char>| acc.contains(x) ==> insert_name(acc, c).contains(x),
        forall|x: Seq<char>| insert_name(acc, c).contains(x) ==> acc.contains(x) || x == c,
        acc.no_duplicates() ==> insert_name(acc, c).no_duplicates(),
        !acc.contains(c) ==> insert_name(acc, c) == acc.insert(count_lt(acc, c) as int, c),
        acc.contains(c) ==> insert_name(acc, c) == acc,
{
    lemma_count_lt_bound(acc, c);
    if !acc.contains(c) {
        let i = count_lt(acc, c) as int;
        let r = acc.insert(i, c);
        assert(r[i] == c);
        assert forall|x: Seq<char>| acc.contains(x) implies r.contains(x) by {
            let j = choose|j: int| 0 <= j < acc.len() && acc[j] == x;
            if j < i {
                assert(r[j] == x);
            } else {
                assert(r[j + 1] == x);
            }
        }
        assert forall|x: Seq<char>| r.contains(x) implies acc.contains(x) || x == c by {
            let j = choose|j: int| 0 <= j < r.len() && r[j] == x;
            if j < i {
                assert(acc[j] == x);
            } else if j > i {
                assert(acc[j - 1] == x);
            }
        }
        if acc.no_duplicates() {
            assert forall|a: int, b: int| 0 <= a < r.len() && 0 <= b < r.len() && a != b implies r[a]
                != r[b] by {
                if a == i {
                    if b < i {
                        assert(acc.contains(r[b]));
                    } else {
                        assert(r[b] == acc[b - 1]);
                    }
                } else if b == i {
                    if a < i {
                        assert(r[a] == acc[a]);
                    } else {
                        assert(r[a] == acc[a - 1]);
                    }
                } else {
                    let a2 = if a < i {
                        a
                    } else {
                        a - 1
                    };
                    let b2 = if b < i {
                        b
                    } else {
                        b - 1
                    };
                    assert(r[a] == acc[a2] && r[b] == acc[b2]);
                }
            }
        }
    }
}

/// The subdirectory names of a directory do not repeat.
pub proof fn lemma_names_distinct(files: Seq<FileStat>, p: Seq<Seq<char>>)
    ensures
        name_fold(files, p).no_duplicates(),
    decreases files.len(),
{
    if files.len() > 0 {
        lemma_names_distinct(files.drop_last(), p);
        let f = files.last();
        if is_under(f, p) && dirs_of(f).len() > p.len() {
            lemma_insert_name_members(name_fold(files.drop_last(), p), dirs_of(f)[p.len() as int]);
        }
    }
}

/// A directory lists a subdirectory exactly when some counted file lies
/// below that subdirectory.
pub proof fn lemma_subdirectory_iff_file_below(files: Seq<FileStat>, p: Seq<Seq<char>>, c: Seq<char>)
    ensures
        name_fold(files, p).contains(c) <==> exists|i: int| 0 <= i < files.len() && is_under(#[trigger] files[i], p.push(c)),
    decreases files.len(),
{
    if files.len() > 0 {
        let d = files.drop_last();
        let f = files.last();
        lemma_subdirectory_iff_file_below(d, p, c);
        lemma_under_child(f, p, c);
        if is_under(f, p) && dirs_of(f).len() > p.len() {
            lemma_insert_name_members(name_fold(d, p), dirs_of(f)[p.len() as int]);
        }
        if exists|i: int| 0 <= i < d.len() && is_under(#[trigger] d[i], p.push(c)) {
            let i = choose|i: int| 0 <= i < d.len() && is_under(#[trigger] d[i], p.push(c));
            assert(files[i] == d[i]);
        }
        if exists|i: int| 0 <= i < files.len() && is_under(#[trigger] files[i], p.push(c)) {
            let i = choose|i: int| 0 <= i < files.len() && is_under(#[trigger] files[i], p.push(c));
            if i < d.len() {
                assert(d[i] == files[i]);
            } else {
                assert(files[i] == f);
            }
        }
    }
}

/// In a built tree, the subdirectories of each directory are exactly the
/// names below it under which some counted file lies.
pub proof fn lemma_tree_directories_hold_files(node: DirectoryNode, ctx: TreeContext, p: Seq<Seq<char>>, c: Seq<char>)
    requires
        node_ok(node, ctx, p),
    ensures
        child_order(ctx, p).len() == node.children@.len(),
        child_order(ctx, p).contains(c) <==> exists|i: int|
            0 <= i < ctx.files.len() && is_under(#[trigger] ctx.files[i], p.push(c)),
{
    lemma_subdirectory_iff_file_below(ctx.files, p, c);
    let names = name_fold(ctx.files, p);
    let wc = weighted_children(ctx, p);
    let sorted = sort_desc(wc);
    crate::sort::lemma_sort_desc_permutes(wc);
    sorted.to_multiset_ensures();
    wc.to_multiset_ensures();
    let x = (ctx.metric.spec_value(&subtotal(ctx.files, p.push(c))), c);
    if names.contains(c) {
        let j = choose|j: int| 0 <= j < names.len() && names[j] == c;
        assert(wc[j] == x);
        assert(wc.contains(x));
        assert(wc.to_multiset().count(x) > 0);
        assert(sorted.to_multiset().count(x) > 0);
        assert(sorted.contains(x));
        let t = choose|t: int| 0 <= t < sorted.len() && sorted[t] == x;
        assert(child_order(ctx, p)[t] == c);
    }
    if child_order(ctx, p).contains(c) {
        let t = choose|t: int| 0 <= t < child_order(ctx, p).len() && child_order(ctx, p)[t] == c;
        assert(sorted[t].1 == c);
        assert(sorted.contains(sorted[t]));
        assert(sorted.to_multiset().count(sorted[t]) > 0);
        assert(wc.to_multiset().count(sorted[t]) > 0);
        assert(wc.contains(sorted[t]));
        let j = choose|j: int| 0 <= j < wc.len() && wc[j] == sorted[t];
        assert(names[j] == c);
    }
}

/// Every directory a file lies in, below the root, is named plainly.
pub open spec fn plain_dirs(files: Seq<FileStat>) -> bool {
    forall|i: int, k: int|
        0 <= i < files.len() && 0 <= k < dirs_of(files[i]).len() ==> is_plain_name(
            #[trigger] dirs_of(#[trigger] files[i])[k],
        )
}

/// In a tree built under an absolute root, each subdirectory's path has its
/// directory's path as parent (`Path::parent`, compared component by
/// component).
pub proof fn lemma_child_parent_is_directory(node: DirectoryNode, ctx: TreeContext, p: Seq<Seq<char>>, i: int)
    requires
        node_ok(node, ctx, p),
        ctx.root.len() >= 1,
        ctx.root[0] == '/',
        plain_dirs(ctx.files),
        forall|k: int| 0 <= k < p.len() ==> is_plain_name(#[trigger] p[k]),
        0 <= i < node.children@.len(),
    ensures
        parent(node.children@[i].path@) matches Some(pp) && components(pp) == components(node.path@),
{
    let order = child_order(ctx, p);
    let c = order[i];
    lemma_tree_directories_hold_files(node, ctx, p, c);
    assert(order.contains(c));
    let j = choose|j: int| 0 <= j < ctx.files.len() && is_under(#[trigger] ctx.files[j], p.push(c));
    let f = ctx.files[j];
    lemma_under_child(f, p, c);
    assert(is_plain_name(dirs_of(f)[p.len() as int]));
    let q = p.push(c);
    assert forall|k: int| 0 <= k < q.len() implies is_plain_name(#[trigger] q[k]) by {
        if k < p.len() {
            assert(q[k] == p[k]);
        }
    }
    lemma_join_adds_components(ctx.root, q);
    lemma_join_adds_components(ctx.root, p);
    let child = node.children@[i];
    assert(node_ok(child, ctx, q));
    lemma_parent_drops_last_component(child.path@);
    assert((components(ctx.root) + q).drop_last() =~= components(ctx.root) + p);
}

/// A subdirectory name is listed once any file lies below it.
proof fn lemma_child_listed(files: Seq<FileStat>, p: Seq<Seq<char>>, c: Seq<char>, wt: spec_fn(FileStat) -> int)
    ensures
        !name_fold(files, p).contains(c) ==> under_sum(files, p.push(c), wt) == 0,
    decreases files.len(),
{
    if files.len() > 0 {
        let d = files.drop_last();
        let f = files.last();
        lemma_child_listed(d, p, c, wt);
        lemma_under_child(f, p, c);
        if is_under(f, p) && dirs_of(f).len() > p.len() {
            lemma_insert_name_members(name_fold(d, p), dirs_of(f)[p.len() as int]);
        }
    }
}

proof fn lemma_names_sum_step(files: Seq<FileStat>, names: Seq<Seq<char>>, p: Seq<Seq<char>>, wt: spec_fn(FileStat) -> int)
    requires
        files.len() > 0,
        names.no_duplicates(),
    ensures
        names_sum(files, names, p, wt) == names_sum(files.drop_last(), names, p, wt) + if is_under(
            files.last(),
            p,
        ) && dirs_of(files.last()).len() > p.len() && names.contains(
            dirs_of(files.last())[p.len() as int],
        ) {
            wt(files.last())
        } else {
            0
        },
    decreases names.len(),
{
    let f = files.last();
    if names.len() > 0 {
        let dn = names.drop_last();
        assert(dn.no_duplicates()) by {
            assert forall|a: int, b: int| 0 <= a < dn.len() && 0 <= b < dn.len() && a != b implies dn[a]
                != dn[b] by {
                assert(dn[a] == names[a] && dn[b] == names[b]);
            }
        }
        lemma_names_sum_step(files, dn, p, wt);
        lemma_under_child(f, p, names.last());
        let c0 = dirs_of(f)[p.len() as int];
        if is_under(f, p) && dirs_of(f).len() > p.len() {
            if names.contains(c0) {
                let j = choose|j: int| 0 <= j < names.len() && names[j] == c0;
                if j < names.len() - 1 {
                    assert(dn[j] == c0);
                    assert(names.last() != c0);
                } else {
                    assert(!dn.contains(c0)) by {
                        if dn.contains(c0) {
                            let t = choose|t: int| 0 <= t < dn.len() && dn[t] == c0;
                            assert(names[t] == names[names.len() - 1]);
                        }
                    }
                }
            } else {
                assert(!dn.contains(c0)) by {
                    if dn.contains(c0) {
                        let t = choose|t: int| 0 <= t < dn.len() && dn[t] == c0;
                        assert(names[t] == c0);
                    }
                }
                assert(names.last() != c0) by {
                    assert(names[names.len() - 1] == names.last());
                }
            }
        }
    }
}

/// A directory's counts are those of the files directly in it plus those of
/// its subdirectories, count by count.
pub proof fn lemma_directory_is_files_plus_subdirectories(files: Seq<FileStat>, p: Seq<Seq<char>>, wt: spec_fn(FileStat) -> int)
    ensures
        under_sum(files, p, wt) == direct_sum(files, p, wt) + names_sum(files, name_fold(files, p), p, wt),
    decreases files.len(),
{
    if files.len() > 0 {
        let d = files.drop_last();
        let f = files.last();
        let n = name_fold(d, p);
        lemma_directory_is_files_plus_subdirectories(d, p, wt);
        lemma_names_distinct(d, p);
        lemma_names_sum_step(files, n, p, wt);
        lemma_direct_is_under(f, p);
        let dd = direct_files(d, p);
        if dirs_of(f) == p {
            assert(direct_files(files, p) == dd.push(f));
            assert(dd.push(f).drop_last() =~= dd);
            assert(direct_sum(files, p, wt) == direct_sum(d, p, wt) + wt(f));
            assert(name_fold(files, p) == n);
        } else {
            assert(direct_files(files, p) == dd);
            assert(direct_sum(files, p, wt) == direct_sum(d, p, wt));
        }
        if is_under(f, p) && dirs_of(f).len() > p.len() {
            let c0 = dirs_of(f)[p.len() as int];
            lemma_insert_name_members(n, c0);
            assert(name_fold(files, p) == insert_name(n, c0));
            if !n.contains(c0) {
                lemma_count_lt_bound(n, c0);
                lemma_sum_by_insert(
                    n,
                    count_lt(n, c0) as int,
                    c0,
                    |c: Seq<char>| under_sum(files, p.push(c), wt),
                );
                lemma_child_listed(d, p, c0, wt);
                lemma_under_child(f, p, c0);
                assert(under_sum(files, p.push(c0), wt) == under_sum(d, p.push(c0), wt) + wt(f));
            }
        } else if !is_under(f, p) {
            assert(name_fold(files, p) == n);
        }
    }
}

/// With no overflow, each count of a directory's totals is the unbounded sum.
pub proof fn lemma_subtotal_field(files: Seq<FileStat>, p: Seq<Seq<char>>, k: int)
    requires
        totals_fit(files),
    ensures
        field(subtotal(files, p), k) == under_sum(files, p, field_weight(k)),
    decreases files.len(),
{
    if files.len() > 0 {
        let d = files.drop_last();
        lemma_subtotal_field(d, p, k);
        lemma_subtotal_bounded(d, p);
        lemma_all_under_root(files.last());
    }
}

/// Each count of a directory in the tree is the sum of that count over the
/// files directly in it and over its subdirectories.
pub proof fn lemma_directory_counts_add_up(node: DirectoryNode, ctx: TreeContext, p: Seq<Seq<char>>, k: int)
    requires
        node_ok(node, ctx, p),
        totals_fit(ctx.files),
    ensures
        field(node.totals, k) == sum_by(node.files@, |f: FileNode| field(f.totals, k)) + sum_by(
            node.children@,
            |c: DirectoryNode| field(c.totals, k),
        ),
{
    let files = ctx.files;
    let n = name_fold(files, p);
    lemma_subtotal_field(files, p, k);
    lemma_directory_is_files_plus_subdirectories(files, p, field_weight(k));

    // The files directly in the directory.
    let view_f = |f: FileNode| f@;
    let g1 = |f: FileNode| field(f.totals, k);
    let gv = |v: FileNodeView| field(v.totals, k);
    let snd_f = |x: (u64, FileNodeView)| x.1;
    let wf = |f: FileStat| weigh_file(ctx, p, f);
    let gd = |f: FileStat| field(f.totals, k);
    let g3 = |x: (u64, FileNodeView)| gv(snd_f(x));
    let dw = direct_files(files, p).map_values(wf);
    crate::sort::lemma_sum_by_map(node.files@, view_f, gv);
    assert((|x: FileNode| gv(view_f(x))) =~= g1);
    assert(node.files@.map_values(view_f) =~= file_views(node.files@));
    assert(dw =~= direct_files(files, p).map_values(|f: FileStat| weigh_file(ctx, p, f)));
    assert(sort_desc(dw).map_values(snd_f) =~= expected_files(ctx, p));
    crate::sort::lemma_sum_by_map(sort_desc(dw), snd_f, gv);
    crate::sort::lemma_sum_by_sort_desc(dw, g3);
    crate::sort::lemma_sum_by_map(direct_files(files, p), wf, g3);
    assert((|x: FileStat| g3(wf(x))) =~= gd);
    assert(gd =~= field_weight(k));
    assert(sum_by(node.files@, g1) == direct_sum(files, p, field_weight(k)));

    // The subdirectories.
    let w = weighted_children(ctx, p);
    let g2 = |c: DirectoryNode| field(c.totals, k);
    let hc = |c: Seq<char>| under_sum(files, p.push(c), field_weight(k));
    let snd_c = |x: (u64, Seq<char>)| x.1;
    let wc = |c: Seq<char>| (ctx.metric.spec_value(&subtotal(files, p.push(c))), c);
    let h3 = |x: (u64, Seq<char>)| hc(snd_c(x));
    let order = child_order(ctx, p);
    assert(w =~= n.map_values(wc));
    assert(order =~= sort_desc(w).map_values(snd_c));
    assert forall|i: int| 0 <= i < node.children@.len() implies g2(#[trigger] node.children@[i]) == hc(
        order[i],
    ) by {
        assert(node_ok(node.children@[i], ctx, p.push(order[i])));
        lemma_subtotal_field(files, p.push(order[i]), k);
    }
    crate::sort::lemma_sum_by_pointwise(node.children@, order, g2, hc);
    crate::sort::lemma_sum_by_map(sort_desc(w), snd_c, hc);
    crate::sort::lemma_sum_by_sort_desc(w, h3);
    crate::sort::lemma_sum_by_map(n, wc, h3);
    assert((|c: Seq<char>| h3(wc(c))) =~= hc);
    assert(hc =~= (|c: Seq<char>| under_sum(files, p.push(c), field_weight(k))));
    assert(sum_by(node.children@, g2) == names_sum(files, n, p, field_weight(k)));
}

// ---------------------------------------------------------------------------
// Every file listed once
// ---------------------------------------------------------------------------

/// A weight summed over every file listed anywhere in a tree.
pub open spec fn tree_file_sum(node: DirectoryNode, h: spec_fn(FileNodeView) -> int) -> int
    decreases node, node.children@.len() + 1,
{
    sum_by(file_views(node.files@), h) + children_file_sum(node, h, node.children@.len() as int)
}

/// `tree_file_sum` added up over the first `n` subdirectories of `node`.
pub open spec fn children_file_sum(node: DirectoryNode, h: spec_fn(FileNodeView) -> int, n: int) -> int
    decreases node, n,
{
    if n <= 0 || n > node.children@.len() {
        0
    } else {
        children_file_sum(node, h, n - 1) + tree_file_sum(node.children@[n - 1], h)
    }
}

/// The weight of an input file as the tree lists it, in the directory its
/// path names.
pub open spec fn listed_weight(ctx: TreeContext, h: spec_fn(FileNodeView) -> int) -> spec_fn(FileStat) -> int {
    |f: FileStat| h(file_node_of(ctx, dirs_of(f), f))
}

proof fn lemma_children_file_sum(node: DirectoryNode, h: spec_fn(FileNodeView) -> int, n: int)
    requires
        0 <= n <= node.children@.len(),
    ensures
        children_file_sum(node, h, n) == sum_by(
            node.children@.take(n),
            |c: DirectoryNode| tree_file_sum(c, h),
        ),
    decreases n,
{
    if n > 0 {
        lemma_children_file_sum(node, h, n - 1);
        assert(node.children@.take(n).drop_last() =~= node.children@.take(n - 1));
    } else {
        assert(node.children@.take(0) =~= Seq::<DirectoryNode>::empty());
    }
}

/// Whatever weight is given to listed files, a directory of the built tree
/// lists, over itself and all its subdirectories, exactly the weight of the
/// input files below it, each file in the directory its path names. With the
/// weight that counts one particular file, this says each input file is
/// listed exactly as often as it is given, in the directory it lies in.
pub proof fn lemma_tree_lists_each_file_once(
    node: DirectoryNode,
    ctx: TreeContext,
    p: Seq<Seq<char>>,
    h: spec_fn(FileNodeView) -> int,
)
    requires
        node_ok(node, ctx, p),
    ensures
        tree_file_sum(node, h) == under_sum(ctx.files, p, listed_weight(ctx, h)),
    decreases node,
{
    let files = ctx.files;
    let wt = listed_weight(ctx, h);
    let n = name_fold(files, p);
    lemma_directory_is_files_plus_subdirectories(files, p, wt);

    // The files directly in the directory.
    let snd_f = |x: (u64, FileNodeView)| x.1;
    let wf = |f: FileStat| weigh_file(ctx, p, f);
    let g3 = |x: (u64, FileNodeView)| h(snd_f(x));
    let dw = direct_files(files, p).map_values(wf);
    assert(sort_desc(dw).map_values(snd_f) =~= expected_files(ctx, p));
    crate::sort::lemma_sum_by_map(sort_desc(dw), snd_f, h);
    crate::sort::lemma_sum_by_sort_desc(dw, g3);
    crate::sort::lemma_sum_by_map(direct_files(files, p), wf, g3);
    let df = direct_files(files, p);
    assert forall|i: int| 0 <= i < df.len() implies (|x: FileStat| g3(wf(x)))(#[trigger] df[i]) == wt(df[i]) by {
        lemma_direct_files_here(files, p, i);
    }
    crate::sort::lemma_sum_by_ext(df, |x: FileStat| g3(wf(x)), wt);
    assert(sum_by(file_views(node.files@), h) == direct_sum(files, p, wt));

    // The subdirectories.
    let w = weighted_children(ctx, p);
    let tf = |c: DirectoryNode| tree_file_sum(c, h);
    let hc = |c: Seq<char>| under_sum(files, p.push(c), wt);
    let snd_c = |x: (u64, Seq<char>)| x.1;
    let wc = |c: Seq<char>| (ctx.metric.spec_value(&subtotal(files, p.push(c))), c);
    let h3 = |x: (u64, Seq<char>)| hc(snd_c(x));
    let order = child_order(ctx, p);
    assert(w =~= n.map_values(wc));
    assert(order =~= sort_desc(w).map_values(snd_c));
    assert forall|i: int| 0 <= i < node.children@.len() implies tf(#[trigger] node.children@[i]) == hc(
        order[i],
    ) by {
        assert(node_ok(node.children@[i], ctx, p.push(order[i])));
        lemma_tree_lists_each_file_once(node.children@[i], ctx, p.push(order[i]), h);
    }
    lemma_children_file_sum(node, h, node.children@.len() as int);
    assert(node.children@.take(node.children@.len() as int) =~= node.children@);
    crate::sort::lemma_sum_by_pointwise(node.children@, order, tf, hc);
    crate::sort::lemma_sum_by_map(sort_desc(w), snd_c, hc);
    crate::sort::lemma_sum_by_sort_desc(w, h3);
    crate::sort::lemma_sum_by_map(n, wc, h3);
    assert((|c: Seq<char>| h3(wc(c))) =~= hc);
    assert(children_file_sum(node, h, node.children@.len() as int) == names_sum(files, n, p, wt));
}

proof fn lemma_direct_files_here(files: Seq<FileStat>, p: Seq<Seq<char>>, i: int)
    requires
        0 <= i < direct_files(files, p).len(),
    ensures
        dirs_of(direct_files(files, p)[i]) == p,
    decreases files.len(),
{
    if files.len() > 0 {
        let d = direct_files(files.drop_last(), p);
        if i < d.len() {
            lemma_direct_files_here(files.drop_last(), p, i);
            if dirs_of(files.last()) == p {
                assert(direct_files(files, p)[i] == d[i]);
            }
        }
    }
}

/// Below the root lie all the input files.
pub proof fn lemma_under_root_is_all(files: Seq<FileStat>, wt: spec_fn(FileStat) -> int)
    ensures
        under_sum(files, Seq::empty(), wt) == sum_by(files, wt),
    decreases files.len(),
{
    if files.len() > 0 {
        lemma_under_root_is_all(files.drop_last(), wt);
        lemma_all_under_root(files.last());
    }
}

} // verus!
