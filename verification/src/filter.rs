use vstd::prelude::*;
use crate::text::{
    ascii_lower, chars_contains, chars_eq, chars_eq_ignore_ascii_case, contains, eq_ignore_ascii_case,
    from_chars,
    in_class, is_ascii_text, is_whitespace, lemma_split_on_nonempty, lower_text, lowercase, split_chars, strip_trailing, split_on, strip_leading, strip_leading_chars, texts, to_chars, to_lower_text,
    trim, trim_chars, CharClass,
};

verus! {

/// Matches a path when the path's text contains the pattern.
#[derive(Clone, Debug, PartialEq, Eq)]
pub struct PathMatcher {
    pattern: String,
}

impl View for PathMatcher {
    type V = Seq<char>;

    closed spec fn view(&self) -> Seq<char> {
        self.pattern@
    }
}

impl PathMatcher {
    pub fn new(pattern: String) -> (m: Self)
        ensures
            m@ == pattern@,
    {
        PathMatcher { pattern }
    }

    pub fn is_match(&self, path: &str) -> (r: bool)
        ensures
            r == contains(path@, self@),
    {
        let hay = to_chars(path);
        let needle = to_chars(self.pattern.as_str());
        chars_contains(&hay, &needle)
    }
}

/// What a scan admits: directory patterns, extensions and languages to keep or drop,
/// and how the walk treats ignore files, hidden entries and depth.
#[derive(Clone, Debug)]
pub struct ScanFilters {
    pub include_dirs: Vec<PathMatcher>,
    pub exclude_dirs: Vec<PathMatcher>,
    pub include_extensions: Vec<String>,
    pub exclude_extensions: Vec<String>,
    pub include_languages: Vec<String>,
    pub exclude_languages: Vec<String>,
    pub respect_gitignore: bool,
    pub include_hidden: bool,
    pub max_depth: Option<usize>,
}

impl Default for ScanFilters {
    fn default() -> (r: Self)
        ensures
            r.include_dirs@.len() == 0,
            r.exclude_dirs@.len() == 0,
            r.include_extensions@.len() == 0,
            r.exclude_extensions@.len() == 0,
            r.include_languages@.len() == 0,
            r.exclude_languages@.len() == 0,
            r.respect_gitignore,
            !r.include_hidden,
            r.max_depth is None,
    {
        ScanFilters {
            include_dirs: Vec::new(),
            exclude_dirs: Vec::new(),
            include_extensions: Vec::new(),
            exclude_extensions: Vec::new(),
            include_languages: Vec::new(),
            exclude_languages: Vec::new(),
            respect_gitignore: true,
            include_hidden: false,
            max_depth: None,
        }
    }
}

/// Some matcher of `matchers` matches `path`.
pub open spec fn any_dir_match(matchers: Seq<PathMatcher>, path: Seq<char>) -> bool {
    exists|i: int| 0 <= i < matchers.len() && contains(path, #[trigger] matchers[i]@)
}

/// The form in which extensions are compared: a leading dot, then the value
/// without its leading dots, lower-cased.
pub open spec fn dotted_lower(value: Seq<char>) -> Seq<char> {
    lower_text(seq!['.'] + strip_leading(value, CharClass::Exactly('.')))
}

/// A configured extension, trimmed first and then put in the compared form.
pub open spec fn normalized_extension(value: Seq<char>) -> Seq<char> {
    dotted_lower(trim(value))
}

/// The compared form of a file's extension; a file without one compares as "".
pub open spec fn file_extension_key(extension: Option<Seq<char>>) -> Seq<char> {
    match extension {
        Some(e) => dotted_lower(e),
        None => Seq::empty(),
    }
}

/// Some configured extension of `values` normalizes to `key`.
pub open spec fn any_extension_match(values: Seq<String>, key: Seq<char>) -> bool {
    exists|i: int| 0 <= i < values.len() && normalized_extension(#[trigger] values[i]@) == key
}

/// Some configured language of `values` equals `language` up to ASCII case.
pub open spec fn any_language_match(values: Seq<String>, language: Seq<char>) -> bool {
    exists|i: int| 0 <= i < values.len() && eq_ignore_ascii_case(#[trigger] values[i]@, language)
}

impl ScanFilters {
    pub open spec fn spec_allows_dir(&self, path: Seq<char>) -> bool {
        &&& (self.include_dirs@.len() == 0 || any_dir_match(self.include_dirs@, path))
        &&& !any_dir_match(self.exclude_dirs@, path)
    }

    pub open spec fn spec_allows_extension(&self, extension: Option<Seq<char>>) -> bool {
        let key = file_extension_key(extension);
        &&& (self.include_extensions@.len() == 0 || any_extension_match(
            self.include_extensions@,
            key,
        ))
        &&& !any_extension_match(self.exclude_extensions@, key)
    }

    pub open spec fn spec_allows_language(&self, language: Seq<char>) -> bool {
        &&& (self.include_languages@.len() == 0 || any_language_match(
            self.include_languages@,
            language,
        ))
        &&& !any_language_match(self.exclude_languages@, language)
    }

    pub fn allows_dir(&self, path: &str) -> (r: bool)
        ensures
            r == self.spec_allows_dir(path@),
    {
        if self.include_dirs.len() > 0 && !matches_any_dir(&self.include_dirs, path) {
            return false;
        }
        !matches_any_dir(&self.exclude_dirs, path)
    }

    pub fn allows_extension(&self, extension: Option<&str>) -> (r: bool)
        ensures
            r == self.spec_allows_extension(
                match extension {
                    Some(e) => Some(e@),
                    None => None,
                },
            ),
            extension is None ==> r == (self.include_extensions@.len() == 0),
    {
        let normalized: String = match extension {
            Some(value) => {
                let chars = to_chars(value);
                dotted_lower_string(&chars)
            },
            None => String::new(),
        };
        let key = to_chars(normalized.as_str());
        if self.include_extensions.len() > 0 && !matches_any_extension(
            &self.include_extensions,
            &key,
        ) {
            return false;
        }
        !matches_any_extension(&self.exclude_extensions, &key)
    }

    pub fn allows_language(&self, language: &str) -> (r: bool)
        ensures
            r == self.spec_allows_language(language@),
    {
        let lang = to_chars(language);
        if self.include_languages.len() > 0 && !matches_any_language(
            &self.include_languages,
            &lang,
        ) {
            return false;
        }
        !matches_any_language(&self.exclude_languages, &lang)
    }
}

fn matches_any_dir(matchers: &Vec<PathMatcher>, path: &str) -> (r: bool)
    ensures
        r == any_dir_match(matchers@, path@),
{
    let mut i: usize = 0;
    while i < matchers.len()
        invariant
            i <= matchers.len(),
            forall|j: int| 0 <= j < i ==> !contains(path@, #[trigger] matchers@[j]@),
        decreases matchers.len() - i,
    {
        if matchers[i].is_match(path) {
            return true;
        }
        i = i + 1;
    }
    false
}

/// `lowercase("." + value without leading dots)` as a `String`.
fn dotted_lower_string(value: &Vec<char>) -> (r: String)
    ensures
        r@ == dotted_lower(value@),
        r@.len() > 0,
{
    let stripped = strip_leading_chars(value, CharClass::Exactly('.'));
    let mut dotted: Vec<char> = Vec::new();
    dotted.push('.');
    let mut i: usize = 0;
    while i < stripped.len()
        invariant
            i <= stripped.len(),
            dotted@ == seq!['.'] + stripped@.take(i as int),
        decreases stripped.len() - i,
    {
        dotted.push(stripped[i]);
        i = i + 1;
        assert(dotted@ =~= seq!['.'] + stripped@.take(i as int));
    }
    assert(stripped@.take(stripped@.len() as int) =~= stripped@);
    let s = from_chars(&dotted);
    to_lower_text(s.as_str())
}

/// A configured extension in the form in which extensions are compared: trimmed,
/// leading dots dropped, one dot prefixed, lower-cased.
pub fn normalize_extension(value: &str) -> (r: String)
    ensures
        r@ == normalized_extension(value@),
        r@.len() > 0,
{
    let chars = to_chars(value);
    let trimmed = trim_chars(&chars);
    dotted_lower_string(&trimmed)
}

fn matches_any_extension(values: &Vec<String>, key: &Vec<char>) -> (r: bool)
    ensures
        r == any_extension_match(values@, key@),
        r ==> key@.len() > 0,
{
    let mut i: usize = 0;
    while i < values.len()
        invariant
            i <= values.len(),
            forall|j: int| 0 <= j < i ==> normalized_extension(#[trigger] values@[j]@) != key@,
        decreases values.len() - i,
    {
        let n = normalize_extension(values[i].as_str());
        let nc = to_chars(n.as_str());
        if chars_eq(&nc, key) {
            return true;
        }
        i = i + 1;
    }
    false
}

fn matches_any_language(values: &Vec<String>, language: &Vec<char>) -> (r: bool)
    ensures
        r == any_language_match(values@, language@),
{
    let mut i: usize = 0;
    while i < values.len()
        invariant
            i <= values.len(),
            forall|j: int| 0 <= j < i ==> !eq_ignore_ascii_case(#[trigger] values@[j]@, language@),
        decreases values.len() - i,
    {
        let v = to_chars(values[i].as_str());
        if chars_eq_ignore_ascii_case(&v, language) {
            return true;
        }
        i = i + 1;
    }
    false
}

/// The trimmed, non-empty pieces of `ps`, in order.
pub open spec fn kept_entries(ps: Seq<Seq<char>>) -> Seq<Seq<char>>
    decreases ps.len(),
{
    if ps.len() == 0 {
        Seq::empty()
    } else {
        let acc = kept_entries(ps.drop_last());
        if trim(ps.last()).len() > 0 {
            acc.push(trim(ps.last()))
        } else {
            acc
        }
    }
}

/// The entries of a filter list typed as text: pieces between ',', ' ' and
/// ';', trimmed, empty ones dropped.
pub open spec fn filter_list_entries(input: Seq<char>) -> Seq<Seq<char>> {
    kept_entries(split_on(input, CharClass::ListSeparator))
}

pub fn split_filter_list(input: &str) -> (r: Vec<String>)
    ensures
        r@.map_values(|s: String| s@) == filter_list_entries(input@),
{
    let chars = to_chars(input);
    let pieces = split_chars(&chars, CharClass::ListSeparator);
    let ghost ps = texts(pieces@);
    let mut out: Vec<String> = Vec::new();
    let mut i: usize = 0;
    assert(ps.take(0) =~= Seq::<Seq<char>>::empty());
    assert(out@.map_values(|s: String| s@) =~= Seq::<Seq<char>>::empty());
    while i < pieces.len()
        invariant
            i <= pieces.len(),
            ps == texts(pieces@),
            out@.map_values(|s: String| s@) == kept_entries(ps.take(i as int)),
        decreases pieces.len() - i,
    {
        assert(ps.take(i + 1).drop_last() =~= ps.take(i as int));
        assert(ps[i as int] == pieces@[i as int]@);
        let t = trim_chars(&pieces[i]);
        if t.len() > 0 {
            let ghost prev = out@;
            out.push(from_chars(&t));
            assert(out@.map_values(|s: String| s@) =~= prev.map_values(|s: String| s@).push(t@));
        }
        i = i + 1;
    }
    assert(ps.take(pieces.len() as int) =~= ps);
    out
}

/// A directory whose path contains an excluded pattern is refused; with no
/// include patterns, any other directory is allowed; with include patterns,
/// a directory is allowed only if its path contains one of them.
pub proof fn lemma_directory_patterns(filters: ScanFilters, path: Seq<char>, j: int)
    ensures
        0 <= j < filters.exclude_dirs@.len() && contains(path, filters.exclude_dirs@[j]@)
            ==> !filters.spec_allows_dir(path),
        filters.include_dirs@.len() == 0 && (forall|k: int|
            0 <= k < filters.exclude_dirs@.len() ==> !contains(path, #[trigger] filters.exclude_dirs@[k]@))
            ==> filters.spec_allows_dir(path),
        filters.include_dirs@.len() > 0 && (forall|k: int|
            0 <= k < filters.include_dirs@.len() ==> !contains(path, #[trigger] filters.include_dirs@[k]@))
            ==> !filters.spec_allows_dir(path),
{
}

/// A language named (up to ASCII case) by an exclusion is refused; with no
/// inclusion list, any other language is allowed; with one, a language is
/// allowed only if the list names it.
pub proof fn lemma_language_lists(filters: ScanFilters, language: Seq<char>, j: int)
    ensures
        0 <= j < filters.exclude_languages@.len() && eq_ignore_ascii_case(filters.exclude_languages@[j]@, language)
            ==> !filters.spec_allows_language(language),
        filters.include_languages@.len() == 0 && (forall|k: int|
            0 <= k < filters.exclude_languages@.len() ==> !eq_ignore_ascii_case(
                #[trigger] filters.exclude_languages@[k]@,
                language,
            )) ==> filters.spec_allows_language(language),
        filters.include_languages@.len() > 0 && (forall|k: int|
            0 <= k < filters.include_languages@.len() ==> !eq_ignore_ascii_case(
                #[trigger] filters.include_languages@[k]@,
                language,
            )) ==> !filters.spec_allows_language(language),
{
}

/// A file's extension is compared without its leading dots: "rs" and ".rs"
/// are admitted alike.
pub proof fn lemma_extension_filter_ignores_leading_dots(filters: ScanFilters, e: Seq<char>)
    ensures
        filters.spec_allows_extension(Some(seq!['.'] + e)) == filters.spec_allows_extension(Some(e)),
{
    let dotted = seq!['.'] + e;
    assert(dotted.drop_first() =~= e);
    assert(strip_leading(dotted, CharClass::Exactly('.')) == strip_leading(e, CharClass::Exactly('.')));
}

proof fn lemma_strip_dots_ignores_ascii_case(a: Seq<char>, b: Seq<char>)
    requires
        eq_ignore_ascii_case(a, b),
        is_ascii_text(a),
        is_ascii_text(b),
    ensures
        eq_ignore_ascii_case(
            strip_leading(a, CharClass::Exactly('.')),
            strip_leading(b, CharClass::Exactly('.')),
        ),
        is_ascii_text(strip_leading(a, CharClass::Exactly('.'))),
        is_ascii_text(strip_leading(b, CharClass::Exactly('.'))),
    decreases a.len(),
{
    if a.len() > 0 {
        assert(ascii_lower(a[0]) == ascii_lower(b[0]));
        assert((a[0] == '.') == (b[0] == '.'));
        if a[0] == '.' {
            assert forall|i: int| 0 <= i < a.drop_first().len() implies ascii_lower(
                #[trigger] a.drop_first()[i],
            ) == ascii_lower(b.drop_first()[i]) by {
                assert(a.drop_first()[i] == a[i + 1] && b.drop_first()[i] == b[i + 1]);
            }
            assert forall|i: int| 0 <= i < a.drop_first().len() implies (#[trigger] a.drop_first()[i] as u32)
                < 128 by {
                assert(a.drop_first()[i] == a[i + 1]);
            }
            assert forall|i: int| 0 <= i < b.drop_first().len() implies (#[trigger] b.drop_first()[i] as u32)
                < 128 by {
                assert(b.drop_first()[i] == b[i + 1]);
            }
            lemma_strip_dots_ignores_ascii_case(a.drop_first(), b.drop_first());
        }
    }
}

/// For ASCII extensions, the extension filter does not see case: "RS" and
/// "rs" are admitted alike.
pub proof fn lemma_extension_filter_ignores_ascii_case(filters: ScanFilters, a: Seq<char>, b: Seq<char>)
    requires
        is_ascii_text(a),
        is_ascii_text(b),
        eq_ignore_ascii_case(a, b),
    ensures
        filters.spec_allows_extension(Some(a)) == filters.spec_allows_extension(Some(b)),
{
    lemma_strip_dots_ignores_ascii_case(a, b);
    let sa = seq!['.'] + strip_leading(a, CharClass::Exactly('.'));
    let sb = seq!['.'] + strip_leading(b, CharClass::Exactly('.'));
    assert(is_ascii_text(sa)) by {
        assert forall|i: int| 0 <= i < sa.len() implies (#[trigger] sa[i] as u32) < 128 by {
            if i > 0 {
                assert(sa[i] == strip_leading(a, CharClass::Exactly('.'))[i - 1]);
            }
        }
    }
    assert(is_ascii_text(sb)) by {
        assert forall|i: int| 0 <= i < sb.len() implies (#[trigger] sb[i] as u32) < 128 by {
            if i > 0 {
                assert(sb[i] == strip_leading(b, CharClass::Exactly('.'))[i - 1]);
            }
        }
    }
    assert(sa.map_values(|c: char| ascii_lower(c)) =~= sb.map_values(|c: char| ascii_lower(c))) by {
        assert forall|i: int| 0 <= i < sa.len() implies ascii_lower(sa[i]) == ascii_lower(sb[i]) by {
            if i > 0 {
                assert(sa[i] == strip_leading(a, CharClass::Exactly('.'))[i - 1]);
                assert(sb[i] == strip_leading(b, CharClass::Exactly('.'))[i - 1]);
            }
        }
    }
    assert(dotted_lower(a) == dotted_lower(b));
}

/// Language filters do not see ASCII case: two names that differ only in it
/// are allowed alike.
pub proof fn lemma_language_filter_ignores_ascii_case(filters: ScanFilters, a: Seq<char>, b: Seq<char>)
    requires
        eq_ignore_ascii_case(a, b),
    ensures
        filters.spec_allows_language(a) == filters.spec_allows_language(b),
{
    assert forall|v: Seq<char>| eq_ignore_ascii_case(v, a) <==> eq_ignore_ascii_case(v, b) by {
        if eq_ignore_ascii_case(v, a) {
            assert forall|i: int| 0 <= i < v.len() implies ascii_lower(#[trigger] v[i]) == ascii_lower(b[i]) by {
                assert(ascii_lower(v[i]) == ascii_lower(a[i]));
                assert(ascii_lower(a[i]) == ascii_lower(b[i]));
            }
        }
        if eq_ignore_ascii_case(v, b) {
            assert forall|i: int| 0 <= i < v.len() implies ascii_lower(#[trigger] v[i]) == ascii_lower(a[i]) by {
                assert(ascii_lower(v[i]) == ascii_lower(b[i]));
                assert(ascii_lower(a[i]) == ascii_lower(b[i]));
            }
        }
    }
    let inc = filters.include_languages@;
    let exc = filters.exclude_languages@;
    if any_language_match(inc, a) {
        let i = choose|i: int| 0 <= i < inc.len() && eq_ignore_ascii_case(#[trigger] inc[i]@, a);
        assert(eq_ignore_ascii_case(inc[i]@, b));
    }
    if any_language_match(inc, b) {
        let i = choose|i: int| 0 <= i < inc.len() && eq_ignore_ascii_case(#[trigger] inc[i]@, b);
        assert(eq_ignore_ascii_case(inc[i]@, a));
    }
    if any_language_match(exc, a) {
        let i = choose|i: int| 0 <= i < exc.len() && eq_ignore_ascii_case(#[trigger] exc[i]@, a);
        assert(eq_ignore_ascii_case(exc[i]@, b));
    }
    if any_language_match(exc, b) {
        let i = choose|i: int| 0 <= i < exc.len() && eq_ignore_ascii_case(#[trigger] exc[i]@, b);
        assert(eq_ignore_ascii_case(exc[i]@, a));
    }
}

// ---------------------------------------------------------------------------
// Filter lists written back
// ---------------------------------------------------------------------------

/// Entries joined with ',' between them.
pub open spec fn join_commas(entries: Seq<Seq<char>>) -> Seq<char>
    decreases entries.len(),
{
    if entries.len() == 0 {
        Seq::empty()
    } else if entries.len() == 1 {
        entries[0]
    } else {
        join_commas(entries.drop_last()) + seq![','] + entries.last()
    }
}

/// No character of `s` separates list entries.
pub open spec fn no_separator(s: Seq<char>) -> bool {
    forall|i: int| 0 <= i < s.len() ==> !in_class(CharClass::ListSeparator, #[trigger] s[i])
}

proof fn lemma_split_single(s: Seq<char>)
    requires
        no_separator(s),
    ensures
        split_on(s, CharClass::ListSeparator) == seq![s],
    decreases s.len(),
{
    if s.len() > 0 {
        assert(no_separator(s.drop_last())) by {
            assert forall|i: int| 0 <= i < s.drop_last().len() implies !in_class(
                CharClass::ListSeparator,
                #[trigger] s.drop_last()[i],
            ) by {
                assert(s.drop_last()[i] == s[i]);
            }
        }
        lemma_split_single(s.drop_last());
        assert(!in_class(CharClass::ListSeparator, s[s.len() - 1]));
        assert(s.last() == s[s.len() - 1]);
        assert(s.drop_last().push(s.last()) =~= s);
        assert(seq![s.drop_last()].update(0, s.drop_last().push(s.last())) =~= seq![s]);
    } else {
        assert(s =~= Seq::<char>::empty());
    }
}

proof fn lemma_split_append(a: Seq<char>, b: Seq<char>)
    requires
        no_separator(b),
    ensures
        split_on(a + seq![','] + b, CharClass::ListSeparator) == split_on(a, CharClass::ListSeparator).push(b),
    decreases b.len(),
{
    lemma_split_on_nonempty(a, CharClass::ListSeparator);
    if b.len() == 0 {
        assert(a + seq![','] + b =~= a.push(','));
        assert(a.push(',').drop_last() =~= a);
        assert(in_class(CharClass::ListSeparator, ','));
        assert(b =~= Seq::<char>::empty());
    } else {
        let c = b.drop_last();
        assert(no_separator(c)) by {
            assert forall|i: int| 0 <= i < c.len() implies !in_class(CharClass::ListSeparator, #[trigger] c[i]) by {
                assert(c[i] == b[i]);
            }
        }
        lemma_split_append(a, c);
        assert((a + seq![','] + b).drop_last() =~= a + seq![','] + c);
        assert((a + seq![','] + b).last() == b[b.len() - 1]);
        assert(c.push(b[b.len() - 1]) =~= b);
        let pa = split_on(a, CharClass::ListSeparator);
        assert(pa.push(c).update(pa.len() as int, c.push(b[b.len() - 1])) =~= pa.push(b));
    }
}

/// Entries with no separator split back from their ','-joined text.
proof fn lemma_split_joined(entries: Seq<Seq<char>>)
    requires
        entries.len() > 0,
        forall|i: int| 0 <= i < entries.len() ==> no_separator(#[trigger] entries[i]),
    ensures
        split_on(join_commas(entries), CharClass::ListSeparator) == entries,
    decreases entries.len(),
{
    if entries.len() == 1 {
        lemma_split_single(entries[0]);
        assert(seq![entries[0]] =~= entries);
    } else {
        let d = entries.drop_last();
        assert forall|i: int| 0 <= i < d.len() implies no_separator(#[trigger] d[i]) by {
            assert(d[i] == entries[i]);
        }
        lemma_split_joined(d);
        assert(no_separator(entries[entries.len() - 1]));
        lemma_split_append(join_commas(d), entries.last());
        assert(d.push(entries.last()) =~= entries);
    }
}

proof fn lemma_kept_entries_all(entries: Seq<Seq<char>>)
    requires
        forall|i: int| 0 <= i < entries.len() ==> trim(#[trigger] entries[i]) == entries[i] && entries[i].len()
            > 0,
    ensures
        kept_entries(entries) == entries,
    decreases entries.len(),
{
    if entries.len() > 0 {
        let d = entries.drop_last();
        assert forall|i: int| 0 <= i < d.len() implies trim(#[trigger] d[i]) == d[i] && d[i].len() > 0 by {
            assert(d[i] == entries[i]);
        }
        lemma_kept_entries_all(d);
        assert(trim(entries[entries.len() - 1]) == entries[entries.len() - 1]);
        assert(d.push(entries.last()) =~= entries);
    }
}

proof fn lemma_strip_leading_shape(s: Seq<char>, cls: CharClass)
    ensures
        exists|k: int| 0 <= k <= s.len() && strip_leading(s, cls) == #[trigger] s.skip(k),
        strip_leading(s, cls).len() > 0 ==> !in_class(cls, strip_leading(s, cls)[0]),
    decreases s.len(),
{
    if s.len() > 0 && in_class(cls, s[0]) {
        lemma_strip_leading_shape(s.drop_first(), cls);
        let k = choose|k: int| 0 <= k <= s.drop_first().len() && strip_leading(s.drop_first(), cls)
            == #[trigger] s.drop_first().skip(k);
        assert(s.drop_first().skip(k) =~= s.skip(k + 1));
    } else {
        assert(s.skip(0) =~= s);
    }
}

proof fn lemma_strip_trailing_shape(s: Seq<char>, cls: CharClass)
    ensures
        exists|k: int| 0 <= k <= s.len() && strip_trailing(s, cls) == #[trigger] s.take(k),
        strip_trailing(s, cls).len() > 0 ==> !in_class(cls, strip_trailing(s, cls).last()),
    decreases s.len(),
{
    if s.len() > 0 && in_class(cls, s.last()) {
        lemma_strip_trailing_shape(s.drop_last(), cls);
        let k = choose|k: int| 0 <= k <= s.drop_last().len() && strip_trailing(s.drop_last(), cls)
            == #[trigger] s.drop_last().take(k);
        assert(s.drop_last().take(k) =~= s.take(k));
    } else {
        assert(s.take(s.len() as int) =~= s);
    }
}

/// A trimmed piece is its own trim, and keeps the piece's lack of separators.
proof fn lemma_trimmed_piece(p: Seq<char>)
    requires
        no_separator(p),
    ensures
        trim(trim(p)) == trim(p),
        no_separator(trim(p)),
{
    let l = strip_leading(p, CharClass::Whitespace);
    lemma_strip_leading_shape(p, CharClass::Whitespace);
    lemma_strip_trailing_shape(l, CharClass::Whitespace);
    let t = trim(p);
    let a = choose|k: int| 0 <= k <= p.len() && l == #[trigger] p.skip(k);
    let b = choose|k: int| 0 <= k <= l.len() && t == #[trigger] l.take(k);
    assert forall|i: int| 0 <= i < t.len() implies !in_class(CharClass::ListSeparator, #[trigger] t[i]) by {
        assert(t[i] == p[a + i]);
    }
    if t.len() > 0 {
        assert(t[0] == l[0]);
        assert(strip_leading(t, CharClass::Whitespace) == t);
        assert(strip_trailing(t, CharClass::Whitespace) == t);
    } else {
        assert(strip_leading(t, CharClass::Whitespace) == t);
    }
}

/// The entries of a filter list are non-empty, trimmed and free of
/// separators.
proof fn lemma_entries_are_clean(ps: Seq<Seq<char>>)
    requires
        forall|i: int| 0 <= i < ps.len() ==> no_separator(#[trigger] ps[i]),
    ensures
        forall|i: int|
            0 <= i < kept_entries(ps).len() ==> {
                &&& trim(#[trigger] kept_entries(ps)[i]) == kept_entries(ps)[i]
                &&& kept_entries(ps)[i].len() > 0
                &&& no_separator(kept_entries(ps)[i])
            },
    decreases ps.len(),
{
    if ps.len() > 0 {
        let d = ps.drop_last();
        assert forall|i: int| 0 <= i < d.len() implies no_separator(#[trigger] d[i]) by {
            assert(d[i] == ps[i]);
        }
        lemma_entries_are_clean(d);
        assert(no_separator(ps[ps.len() - 1]));
        lemma_trimmed_piece(ps.last());
        let acc = kept_entries(d);
        if trim(ps.last()).len() > 0 {
            assert forall|i: int| 0 <= i < acc.push(trim(ps.last())).len() implies {
                &&& trim(#[trigger] acc.push(trim(ps.last()))[i]) == acc.push(trim(ps.last()))[i]
                &&& acc.push(trim(ps.last()))[i].len() > 0
                &&& no_separator(acc.push(trim(ps.last()))[i])
            } by {
                if i < acc.len() {
                    assert(acc.push(trim(ps.last()))[i] == acc[i]);
                }
            }
        }
    }
}

proof fn lemma_pieces_have_no_separator(s: Seq<char>)
    ensures
        forall|i: int|
            0 <= i < split_on(s, CharClass::ListSeparator).len() ==> no_separator(
                #[trigger] split_on(s, CharClass::ListSeparator)[i],
            ),
    decreases s.len(),
{
    if s.len() > 0 {
        lemma_pieces_have_no_separator(s.drop_last());
        lemma_split_on_nonempty(s.drop_last(), CharClass::ListSeparator);
        let rest = split_on(s.drop_last(), CharClass::ListSeparator);
        if !in_class(CharClass::ListSeparator, s.last()) {
            let q = rest.last().push(s.last());
            assert(no_separator(rest[rest.len() - 1]));
            assert(no_separator(q)) by {
                assert forall|j: int| 0 <= j < q.len() implies !in_class(CharClass::ListSeparator, #[trigger] q[j]) by {
                    if j < q.len() - 1 {
                        assert(q[j] == rest[rest.len() - 1][j]);
                    }
                }
            }
            assert forall|i: int| 0 <= i < rest.update(rest.len() - 1, q).len() implies no_separator(
                #[trigger] rest.update(rest.len() - 1, q)[i],
            ) by {
                if i < rest.len() - 1 {
                    assert(rest.update(rest.len() - 1, q)[i] == rest[i]);
                }
            }
        } else {
            assert(no_separator(Seq::<char>::empty()));
            assert forall|i: int| 0 <= i < rest.push(Seq::<char>::empty()).len() implies no_separator(
                #[trigger] rest.push(Seq::<char>::empty())[i],
            ) by {
                if i < rest.len() {
                    assert(rest.push(Seq::<char>::empty())[i] == rest[i]);
                }
            }
        }
    }
}

/// Every entry of a filter list is non-empty, is its own trim, and holds no
/// ',', ' ' or ';'.
pub proof fn lemma_filter_list_entries_clean(input: Seq<char>)
    ensures
        forall|i: int|
            0 <= i < filter_list_entries(input).len() ==> {
                &&& (#[trigger] filter_list_entries(input)[i]).len() > 0
                &&& trim(filter_list_entries(input)[i]) == filter_list_entries(input)[i]
                &&& no_separator(filter_list_entries(input)[i])
            },
{
    lemma_pieces_have_no_separator(input);
    lemma_entries_are_clean(split_on(input, CharClass::ListSeparator));
}

/// For ASCII text, a normalized extension starts with '.', has no ASCII
/// upper-case letter, and normalizes to itself.
pub proof fn lemma_normalized_extension_ascii(v: Seq<char>)
    requires
        is_ascii_text(v),
    ensures
        normalized_extension(v).len() > 0,
        normalized_extension(v)[0] == '.',
        forall|i: int|
            0 <= i < normalized_extension(v).len() ==> !('A' <= #[trigger] normalized_extension(v)[i] && normalized_extension(v)[i] <= 'Z'),
        normalized_extension(normalized_extension(v)) == normalized_extension(v),
{
    let dot = CharClass::Exactly('.');
    let ws = CharClass::Whitespace;
    let l = strip_leading(v, ws);
    lemma_strip_leading_shape(v, ws);
    let a = choose|k: int| 0 <= k <= v.len() && l == #[trigger] v.skip(k);
    let t = trim(v);
    lemma_strip_trailing_shape(l, ws);
    let b = choose|k: int| 0 <= k <= l.len() && t == #[trigger] l.take(k);
    let rest = strip_leading(t, dot);
    lemma_strip_leading_shape(t, dot);
    let c = choose|k: int| 0 <= k <= t.len() && rest == #[trigger] t.skip(k);
    assert(forall|i: int| 0 <= i < rest.len() ==> rest[i] == v[a + c + i]);
    let x = seq!['.'] + rest;
    assert(is_ascii_text(x)) by {
        assert forall|i: int| 0 <= i < x.len() implies (#[trigger] x[i] as u32) < 128 by {
            if i > 0 {
                assert(x[i] == rest[i - 1]);
                assert(x[i] == v[a + c + i - 1]);
            }
        }
    }
    let r = x.map_values(|ch: char| ascii_lower(ch));
    assert(normalized_extension(v) == r);
    assert(r[0] == '.');
    assert forall|i: int| 0 <= i < r.len() implies !('A' <= #[trigger] r[i] && r[i] <= 'Z') by {
        assert(r[i] == ascii_lower(x[i]));
    }
    // The result is already trimmed.
    if rest.len() > 0 {
        assert(rest.last() == t.last());
        assert(!in_class(ws, t.last()));
        assert(r.last() == ascii_lower(rest.last()));
        assert(!is_whitespace(r.last()));
    }
    assert(!is_whitespace(r[0]));
    assert(trim(r) == r) by {
        assert(strip_leading(r, ws) == r);
        assert(strip_trailing(r, ws) == r);
    }
    // Its dots are the one leading dot.
    let rr = r.drop_first();
    assert(rr =~= rest.map_values(|ch: char| ascii_lower(ch)));
    if rest.len() > 0 {
        assert(!in_class(dot, rest[0]));
        assert(rr[0] == ascii_lower(rest[0]));
        assert(rr[0] != '.');
    }
    assert(strip_leading(rr, dot) == rr);
    assert(strip_leading(r, dot) == rr);
    let y = seq!['.'] + rr;
    assert(y =~= r);
    assert(is_ascii_text(r)) by {
        assert forall|i: int| 0 <= i < r.len() implies (#[trigger] r[i] as u32) < 128 by {
            assert(r[i] == ascii_lower(x[i]));
            assert((x[i] as u32) < 128);
        }
    }
    assert(r.map_values(|ch: char| ascii_lower(ch)) =~= r);
}

/// Writing a filter list's entries back with ',' between them and reading
/// that text again gives the same entries.
pub proof fn lemma_filter_list_round_trip(input: Seq<char>)
    ensures
        filter_list_entries(join_commas(filter_list_entries(input))) == filter_list_entries(input),
{
    let ps = split_on(input, CharClass::ListSeparator);
    lemma_pieces_have_no_separator(input);
    lemma_entries_are_clean(ps);
    let e = filter_list_entries(input);
    if e.len() > 0 {
        lemma_split_joined(e);
        lemma_kept_entries_all(e);
    } else {
        assert(join_commas(e) =~= Seq::<char>::empty());
        assert(split_on(Seq::<char>::empty(), CharClass::ListSeparator) =~= seq![Seq::<char>::empty()]);
        assert(trim(Seq::<char>::empty()) =~= Seq::<char>::empty());
        let z = seq![Seq::<char>::empty()];
        assert(z.drop_last() =~= Seq::<Seq<char>>::empty());
        assert(kept_entries(Seq::<Seq<char>>::empty()) == Seq::<Seq<char>>::empty());
        assert(kept_entries(z) =~= Seq::<Seq<char>>::empty());
    }
}

} // verus!
