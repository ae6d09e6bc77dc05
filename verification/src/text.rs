use vstd::prelude::*;
use vstd::string::*;

verus! {

// ---------------------------------------------------------------------------
// Characters
// ---------------------------------------------------------------------------

/// Unicode `White_Space`, the set that `char::is_whitespace` tests for.
pub open spec fn is_whitespace(c: char) -> bool {
    ||| c == ' '
    ||| ('\u{9}' <= c && c <= '\u{d}')
    ||| c == '\u{85}'
    ||| c == '\u{a0}'
    ||| c == '\u{1680}'
    ||| ('\u{2000}' <= c && c <= '\u{200a}')
    ||| c == '\u{2028}'
    ||| c == '\u{2029}'
    ||| c == '\u{202f}'
    ||| c == '\u{205f}'
    ||| c == '\u{3000}'
}

pub fn char_is_whitespace(c: char) -> (r: bool)
    ensures
        r == is_whitespace(c),
{
    c == ' ' || ('\u{9}' <= c && c <= '\u{d}') || c == '\u{85}' || c == '\u{a0}' || c
        == '\u{1680}' || ('\u{2000}' <= c && c <= '\u{200a}') || c == '\u{2028}' || c
        == '\u{2029}' || c == '\u{202f}' || c == '\u{205f}' || c == '\u{3000}'
}

/// ASCII lower-casing of one character; other characters are unchanged.
pub open spec fn ascii_lower(c: char) -> char {
    if 'A' <= c && c <= 'Z' {
        ((c as u32) + 32) as char
    } else {
        c
    }
}

pub fn char_ascii_lower(c: char) -> (r: char)
    ensures
        r == ascii_lower(c),
{
    if 'A' <= c && c <= 'Z' {
        let b: u8 = ((c as u32) + 32) as u8;
        b as char
    } else {
        c
    }
}

// ---------------------------------------------------------------------------
// Conversions between `str`, `String` and character vectors
// ---------------------------------------------------------------------------

/// Appends one character (std's `String::push`).
#[verifier::external_body]
pub fn push_char(s: &mut String, c: char)
    ensures
        final(s)@ == old(s)@.push(c),
{
    s.push(c);
}

/// The lower-case mapping of a string as std's `str::to_lowercase` computes it
/// (Unicode `Lowercase` mapping, with the final-sigma rule).
pub uninterp spec fn lowercase(s: Seq<char>) -> Seq<char>;

/// Text made of ASCII characters only.
pub open spec fn is_ascii_text(s: Seq<char>) -> bool {
    forall|i: int| 0 <= i < s.len() ==> (#[trigger] s[i] as u32) < 128
}

/// std's `str::to_lowercase`. Its result is named; beyond the name, std
/// documents that each character maps to one or more characters (so only the
/// empty text maps to the empty text), and ASCII text maps character by
/// character to its ASCII lower case. Which characters other text maps to
/// is left to the name.
#[verifier::external_body]
pub fn to_lowercase(s: &str) -> (r: String)
    ensures
        r@ == lowercase(s@),
        (r@.len() == 0) == (s@.len() == 0),
        is_ascii_text(s@) ==> r@ == s@.map_values(|c: char| ascii_lower(c)),
{
    s.to_lowercase()
}

/// The lower case of a text: ASCII lower case, character by character, for
/// ASCII text; the Unicode mapping of `lowercase` otherwise.
pub open spec fn lower_text(s: Seq<char>) -> Seq<char> {
    if is_ascii_text(s) {
        s.map_values(|c: char| ascii_lower(c))
    } else {
        lowercase(s)
    }
}

/// `str::to_lowercase`, with its result stated through `lower_text`.
pub fn to_lower_text(s: &str) -> (r: String)
    ensures
        r@ == lower_text(s@),
        (r@.len() == 0) == (s@.len() == 0),
{
    to_lowercase(s)
}

pub fn to_chars(s: &str) -> (v: Vec<char>)
    ensures
        v@ == s@,
{
    let n = s.unicode_len();
    let mut v: Vec<char> = Vec::new();
    let mut i: usize = 0;
    while i < n
        invariant
            n == s@.len(),
            i <= n,
            v@ == s@.take(i as int),
        decreases n - i,
    {
        let c = s.get_char(i);
        v.push(c);
        i = i + 1;
        assert(v@ =~= s@.take(i as int));
    }
    assert(v@ =~= s@);
    v
}

pub fn from_chars(v: &Vec<char>) -> (s: String)
    ensures
        s@ == v@,
{
    let mut s = String::new();
    let mut i: usize = 0;
    while i < v.len()
        invariant
            i <= v.len(),
            s@ == v@.take(i as int),
        decreases v.len() - i,
    {
        push_char(&mut s, v[i]);
        i = i + 1;
        assert(s@ =~= v@.take(i as int));
    }
    assert(s@ =~= v@);
    s
}

pub fn copy_chars(v: &Vec<char>) -> (r: Vec<char>)
    ensures
        r@ == v@,
{
    let r = slice_chars(v, 0, v.len());
    assert(r@ =~= v@);
    r
}

/// `s[a..b]` of a character vector.
pub fn slice_chars(v: &Vec<char>, a: usize, b: usize) -> (r: Vec<char>)
    requires
        a <= b <= v.len(),
    ensures
        r@ == v@.subrange(a as int, b as int),
{
    let mut r: Vec<char> = Vec::new();
    let mut i: usize = a;
    while i < b
        invariant
            a <= i <= b <= v.len(),
            r@ == v@.subrange(a as int, i as int),
        decreases b - i,
    {
        r.push(v[i]);
        i = i + 1;
        assert(r@ =~= v@.subrange(a as int, i as int));
    }
    r
}

// ---------------------------------------------------------------------------
// Trimming
// ---------------------------------------------------------------------------

/// A class of characters that trimming removes.
#[derive(Clone, Copy, Debug, PartialEq, Eq, Structural)]
pub enum CharClass {
    Whitespace,
    Exactly(char),
    /// ',', ' ' or ';', which separate the entries of a filter list.
    ListSeparator,
}

pub open spec fn in_class(cls: CharClass, c: char) -> bool {
    match cls {
        CharClass::Whitespace => is_whitespace(c),
        CharClass::Exactly(d) => c == d,
        CharClass::ListSeparator => c == ',' || c == ' ' || c == ';',
    }
}

pub fn char_in_class(cls: CharClass, c: char) -> (r: bool)
    ensures
        r == in_class(cls, c),
{
    match cls {
        CharClass::Whitespace => char_is_whitespace(c),
        CharClass::Exactly(d) => c == d,
        CharClass::ListSeparator => c == ',' || c == ' ' || c == ';',
    }
}

/// `s` without its leading characters of class `cls` (std's `trim_start_matches`).
pub open spec fn strip_leading(s: Seq<char>, cls: CharClass) -> Seq<char>
    decreases s.len(),
{
    if s.len() > 0 && in_class(cls, s[0]) {
        strip_leading(s.drop_first(), cls)
    } else {
        s
    }
}

/// `s` without its trailing characters of class `cls` (std's `trim_end_matches`).
pub open spec fn strip_trailing(s: Seq<char>, cls: CharClass) -> Seq<char>
    decreases s.len(),
{
    if s.len() > 0 && in_class(cls, s.last()) {
        strip_trailing(s.drop_last(), cls)
    } else {
        s
    }
}

/// std's `str::trim`: leading and trailing whitespace removed.
pub open spec fn trim(s: Seq<char>) -> Seq<char> {
    strip_trailing(strip_leading(s, CharClass::Whitespace), CharClass::Whitespace)
}

pub(crate) proof fn lemma_strip_leading_at(s: Seq<char>, cls: CharClass, i: int)
    requires
        0 <= i <= s.len(),
        forall|j: int| 0 <= j < i ==> in_class(cls, #[trigger] s[j]),
        i == s.len() || !in_class(cls, s[i]),
    ensures
        strip_leading(s, cls) == s.skip(i),
    decreases i,
{
    if i == 0 {
        assert(s.skip(0) =~= s);
    } else {
        lemma_strip_leading_at(s.drop_first(), cls, i - 1);
        assert(s.drop_first().skip(i - 1) =~= s.skip(i));
    }
}

pub(crate) proof fn lemma_strip_trailing_at(s: Seq<char>, cls: CharClass, k: int)
    requires
        0 <= k <= s.len(),
        forall|j: int| k <= j < s.len() ==> in_class(cls, #[trigger] s[j]),
        k == 0 || !in_class(cls, s[k - 1]),
    ensures
        strip_trailing(s, cls) == s.take(k),
    decreases s.len() - k,
{
    if k == s.len() {
        assert(s.take(k) =~= s);
    } else {
        lemma_strip_trailing_at(s.drop_last(), cls, k);
        assert(s.drop_last().take(k) =~= s.take(k));
    }
}

/// Index of the first character not in `cls`, or `v.len()`.
fn leading_run(v: &Vec<char>, cls: CharClass) -> (i: usize)
    ensures
        i <= v.len(),
        forall|j: int| 0 <= j < i ==> in_class(cls, #[trigger] v@[j]),
        i == v.len() || !in_class(cls, v@[i as int]),
{
    let mut i: usize = 0;
    while i < v.len()
        invariant
            i <= v.len(),
            forall|j: int| 0 <= j < i ==> in_class(cls, #[trigger] v@[j]),
        decreases v.len() - i,
    {
        if !char_in_class(cls, v[i]) {
            return i;
        }
        i = i + 1;
    }
    i
}

/// Index just past the last character not in `cls` within `v[lo..]`, or `lo`.
fn trailing_run(v: &Vec<char>, lo: usize, cls: CharClass) -> (k: usize)
    requires
        lo <= v.len(),
    ensures
        lo <= k <= v.len(),
        forall|j: int| k <= j < v.len() ==> in_class(cls, #[trigger] v@[j]),
        k == lo || !in_class(cls, v@[k - 1]),
{
    let mut k: usize = v.len();
    while k > lo
        invariant
            lo <= k <= v.len(),
            forall|j: int| k <= j < v.len() ==> in_class(cls, #[trigger] v@[j]),
        decreases k,
    {
        if !char_in_class(cls, v[k - 1]) {
            return k;
        }
        k = k - 1;
    }
    k
}

pub fn strip_leading_chars(v: &Vec<char>, cls: CharClass) -> (r: Vec<char>)
    ensures
        r@ == strip_leading(v@, cls),
{
    let i = leading_run(v, cls);
    proof {
        lemma_strip_leading_at(v@, cls, i as int);
        assert(v@.skip(i as int) =~= v@.subrange(i as int, v@.len() as int));
    }
    slice_chars(v, i, v.len())
}

pub fn strip_trailing_chars(v: &Vec<char>, cls: CharClass) -> (r: Vec<char>)
    ensures
        r@ == strip_trailing(v@, cls),
{
    let k = trailing_run(v, 0, cls);
    proof {
        lemma_strip_trailing_at(v@, cls, k as int);
        assert(v@.take(k as int) =~= v@.subrange(0, k as int));
    }
    slice_chars(v, 0, k)
}

pub fn trim_chars(v: &Vec<char>) -> (r: Vec<char>)
    ensures
        r@ == trim(v@),
{
    let a = strip_leading_chars(v, CharClass::Whitespace);
    strip_trailing_chars(&a, CharClass::Whitespace)
}

// ---------------------------------------------------------------------------
// Comparisons
// ---------------------------------------------------------------------------

/// std's `str::eq_ignore_ascii_case`.
pub open spec fn eq_ignore_ascii_case(a: Seq<char>, b: Seq<char>) -> bool {
    &&& a.len() == b.len()
    &&& forall|i: int| 0 <= i < a.len() ==> ascii_lower(#[trigger] a[i]) == ascii_lower(b[i])
}

pub fn chars_eq_ignore_ascii_case(a: &Vec<char>, b: &Vec<char>) -> (r: bool)
    ensures
        r == eq_ignore_ascii_case(a@, b@),
{
    if a.len() != b.len() {
        return false;
    }
    let mut i: usize = 0;
    while i < a.len()
        invariant
            a.len() == b.len(),
            i <= a.len(),
            forall|j: int| 0 <= j < i ==> ascii_lower(#[trigger] a@[j]) == ascii_lower(b@[j]),
        decreases a.len() - i,
    {
        if char_ascii_lower(a[i]) != char_ascii_lower(b[i]) {
            return false;
        }
        i = i + 1;
    }
    true
}

pub fn chars_eq(a: &Vec<char>, b: &Vec<char>) -> (r: bool)
    ensures
        r == (a@ == b@),
{
    if a.len() != b.len() {
        return false;
    }
    let mut i: usize = 0;
    while i < a.len()
        invariant
            a.len() == b.len(),
            i <= a.len(),
            forall|j: int| 0 <= j < i ==> a@[j] == b@[j],
        decreases a.len() - i,
    {
        if a[i] != b[i] {
            return false;
        }
        i = i + 1;
    }
    assert(a@ =~= b@);
    true
}

/// `needle` occurs in `hay` at position `i`.
pub open spec fn occurs_at(hay: Seq<char>, needle: Seq<char>, i: int) -> bool {
    &&& 0 <= i
    &&& i + needle.len() <= hay.len()
    &&& hay.subrange(i, i + needle.len()) == needle
}

/// std's `str::contains` with a string pattern.
pub open spec fn contains(hay: Seq<char>, needle: Seq<char>) -> bool {
    exists|i: int| occurs_at(hay, needle, i)
}

/// std's `str::starts_with` with a string pattern.
pub open spec fn starts_with(s: Seq<char>, prefix: Seq<char>) -> bool {
    occurs_at(s, prefix, 0)
}

fn matches_at(hay: &Vec<char>, needle: &Vec<char>, i: usize) -> (r: bool)
    requires
        i + needle.len() <= hay.len(),
    ensures
        r == occurs_at(hay@, needle@, i as int),
{
    let mut j: usize = 0;
    while j < needle.len()
        invariant
            i + needle.len() <= hay.len(),
            j <= needle.len(),
            forall|k: int| 0 <= k < j ==> hay@[i + k] == needle@[k],
        decreases needle.len() - j,
    {
        if hay[i + j] != needle[j] {
            assert(hay@.subrange(i as int, i + needle.len())[j as int] != needle@[j as int]);
            return false;
        }
        j = j + 1;
    }
    assert(hay@.subrange(i as int, i + needle.len()) =~= needle@);
    true
}

pub fn chars_contains(hay: &Vec<char>, needle: &Vec<char>) -> (r: bool)
    ensures
        r == contains(hay@, needle@),
{
    if needle.len() > hay.len() {
        return false;
    }
    let last = hay.len() - needle.len();
    let mut i: usize = 0;
    loop
        invariant
            last + needle.len() == hay.len(),
            i <= last,
            forall|k: int| 0 <= k < i ==> !occurs_at(hay@, needle@, k),
        decreases last - i,
    {
        if matches_at(hay, needle, i) {
            return true;
        }
        if i == last {
            assert forall|k: int| occurs_at(hay@, needle@, k) implies false by {
                assert(k <= last);
            }
            return false;
        }
        i = i + 1;
    }
}

pub fn chars_starts_with(s: &Vec<char>, prefix: &Vec<char>) -> (r: bool)
    ensures
        r == starts_with(s@, prefix@),
{
    if prefix.len() > s.len() {
        return false;
    }
    matches_at(s, prefix, 0)
}

// ---------------------------------------------------------------------------
// Splitting
// ---------------------------------------------------------------------------

/// The pieces of `s` between characters of class `sep`, as `str::split` yields them.
pub open spec fn split_on(s: Seq<char>, sep: CharClass) -> Seq<Seq<char>>
    decreases s.len(),
{
    if s.len() == 0 {
        seq![Seq::empty()]
    } else {
        let rest = split_on(s.drop_last(), sep);
        if in_class(sep, s.last()) {
            rest.push(Seq::empty())
        } else {
            rest.update(rest.len() - 1, rest.last().push(s.last()))
        }
    }
}

pub proof fn lemma_split_on_nonempty(s: Seq<char>, sep: CharClass)
    ensures
        split_on(s, sep).len() >= 1,
    decreases s.len(),
{
    if s.len() > 0 {
        lemma_split_on_nonempty(s.drop_last(), sep);
    }
}

/// No character of `s` is of class `sep`.
pub open spec fn free_of(s: Seq<char>, sep: CharClass) -> bool {
    forall|i: int| 0 <= i < s.len() ==> !in_class(sep, #[trigger] s[i])
}

/// Text without separators is one piece.
pub proof fn lemma_split_on_single(s: Seq<char>, sep: CharClass)
    requires
        free_of(s, sep),
    ensures
        split_on(s, sep) == seq![s],
    decreases s.len(),
{
    if s.len() > 0 {
        assert(free_of(s.drop_last(), sep)) by {
            assert forall|i: int| 0 <= i < s.drop_last().len() implies !in_class(sep, #[trigger] s.drop_last()[i]) by {
                assert(s.drop_last()[i] == s[i]);
            }
        }
        lemma_split_on_single(s.drop_last(), sep);
        assert(!in_class(sep, s[s.len() - 1]));
        assert(s.last() == s[s.len() - 1]);
        assert(s.drop_last().push(s.last()) =~= s);
        assert(seq![s.drop_last()].update(0, s.drop_last().push(s.last())) =~= seq![s]);
    } else {
        assert(s =~= Seq::<char>::empty());
    }
}

/// The pieces of `a`, a separator, then separator-free `b`: those of `a` and `b`.
pub proof fn lemma_split_on_append(a: Seq<char>, x: char, b: Seq<char>, sep: CharClass)
    requires
        in_class(sep, x),
        free_of(b, sep),
    ensures
        split_on(a + seq![x] + b, sep) == split_on(a, sep).push(b),
    decreases b.len(),
{
    lemma_split_on_nonempty(a, sep);
    if b.len() == 0 {
        assert(a + seq![x] + b =~= a.push(x));
        assert(a.push(x).drop_last() =~= a);
        assert(b =~= Seq::<char>::empty());
    } else {
        let c = b.drop_last();
        assert(free_of(c, sep)) by {
            assert forall|i: int| 0 <= i < c.len() implies !in_class(sep, #[trigger] c[i]) by {
                assert(c[i] == b[i]);
            }
        }
        lemma_split_on_append(a, x, c, sep);
        assert((a + seq![x] + b).drop_last() =~= a + seq![x] + c);
        assert((a + seq![x] + b).last() == b[b.len() - 1]);
        assert(c.push(b[b.len() - 1]) =~= b);
        let pa = split_on(a, sep);
        assert(pa.push(c).update(pa.len() as int, c.push(b[b.len() - 1])) =~= pa.push(b));
    }
}

/// The texts of a vector of character vectors.
pub open spec fn texts(ps: Seq<Vec<char>>) -> Seq<Seq<char>> {
    ps.map_values(|p: Vec<char>| p@)
}

pub fn split_chars(v: &Vec<char>, sep: CharClass) -> (r: Vec<Vec<char>>)
    ensures
        texts(r@) == split_on(v@, sep),
{
    let mut done: Vec<Vec<char>> = Vec::new();
    let mut cur: Vec<char> = Vec::new();
    let mut i: usize = 0;
    while i < v.len()
        invariant
            i <= v.len(),
            texts(done@).push(cur@) == split_on(v@.take(i as int), sep),
        decreases v.len() - i,
    {
        let ghost prev = v@.take(i as int);
        proof {
            lemma_split_on_nonempty(prev, sep);
            assert(v@.take(i + 1).drop_last() =~= prev);
        }
        if char_in_class(sep, v[i]) {
            let piece = cur;
            done.push(piece);
            cur = Vec::new();
            assert(texts(done@).push(cur@) =~= split_on(prev, sep).push(Seq::empty()));
        } else {
            cur.push(v[i]);
            assert(texts(done@).push(cur@) =~= split_on(prev, sep).update(
                split_on(prev, sep).len() - 1,
                split_on(prev, sep).last().push(v@[i as int]),
            ));
        }
        i = i + 1;
    }
    done.push(cur);
    assert(v@.take(v.len() as int) =~= v@);
    assert(texts(done@) =~= split_on(v@, sep));
    done
}

} // verus!
