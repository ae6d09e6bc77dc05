//! Unix path text: the pieces between separators, the components that std's
//! `Path::components` yields, and `file_name`, `extension`, `push` on them.
use vstd::prelude::*;
use crate::text::{
    chars_eq, in_class, lemma_split_on_nonempty, slice_chars, split_chars, split_on, texts, CharClass,
};

verus! {

/// A piece that names something: neither empty nor ".".
pub open spec fn is_named_piece(p: Seq<char>) -> bool {
    p.len() > 0 && p != seq!['.']
}

/// The named pieces of `ps`, in order.
pub open spec fn named_pieces(ps: Seq<Seq<char>>) -> Seq<Seq<char>>
    decreases ps.len(),
{
    if ps.len() == 0 {
        Seq::empty()
    } else {
        let b = named_pieces(ps.drop_last());
        if is_named_piece(ps.last()) {
            b.push(ps.last())
        } else {
            b
        }
    }
}

/// The root component, written as "/".
pub open spec fn root_component() -> Seq<char> {
    seq!['/']
}

/// The current-directory component, written as ".".
pub open spec fn cur_dir_component() -> Seq<char> {
    seq!['.']
}

/// The components of a Unix path as `Path::components` yields them: a root
/// component for a leading '/', a current-directory component for a leading
/// "." piece of a relative path, then every named piece (".." included);
/// empty pieces and interior "." pieces are dropped.
pub open spec fn components(s: Seq<char>) -> Seq<Seq<char>> {
    let ps = split_on(s, CharClass::Exactly('/'));
    if s.len() > 0 && s[0] == '/' {
        seq![root_component()] + named_pieces(ps.drop_first())
    } else if ps[0] == cur_dir_component() {
        seq![cur_dir_component()] + named_pieces(ps.drop_first())
    } else {
        named_pieces(ps)
    }
}

/// A component that is a plain name (not root, ".", or "..").
pub open spec fn is_normal_component(c: Seq<char>) -> bool {
    c != root_component() && c != cur_dir_component() && c != seq!['.', '.']
}

/// `Path::file_name`: the last component when it is a plain name.
pub open spec fn file_name(s: Seq<char>) -> Option<Seq<char>> {
    let cs = components(s);
    if cs.len() > 0 && is_normal_component(cs.last()) {
        Some(cs.last())
    } else {
        None
    }
}

/// Index of the last '.' in `n`, or -1.
pub open spec fn last_dot(n: Seq<char>) -> int
    decreases n.len(),
{
    if n.len() == 0 {
        -1
    } else if n.last() == '.' {
        n.len() - 1
    } else {
        last_dot(n.drop_last())
    }
}

/// `Path::extension`: what follows the last '.' of the file name, unless the
/// name has no '.', or its only '.' leads it.
pub open spec fn extension(s: Seq<char>) -> Option<Seq<char>> {
    match file_name(s) {
        Some(n) => {
            let d = last_dot(n);
            if d <= 0 {
                None
            } else {
                Some(n.skip(d + 1))
            }
        },
        None => None,
    }
}

/// `PathBuf::push` of a relative component: a separator is added unless the
/// base is empty or already ends in one.
pub open spec fn push_path(base: Seq<char>, comp: Seq<char>) -> Seq<char> {
    if base.len() > 0 && base.last() != '/' {
        base + seq!['/'] + comp
    } else {
        base + comp
    }
}

/// `root` with each of `comps` pushed in turn.
pub open spec fn join_path(root: Seq<char>, comps: Seq<Seq<char>>) -> Seq<char>
    decreases comps.len(),
{
    if comps.len() == 0 {
        root
    } else {
        push_path(join_path(root, comps.drop_last()), comps.last())
    }
}

/// A component that can stand as one piece of a relative path: non-empty,
/// not "." or "..", and free of '/'.
pub open spec fn is_plain_name(c: Seq<char>) -> bool {
    &&& c.len() > 0
    &&& c != seq!['.']
    &&& c != seq!['.', '.']
    &&& forall|i: int| 0 <= i < c.len() ==> c[i] != '/'
}

// ---------------------------------------------------------------------------
// Executable counterparts
// ---------------------------------------------------------------------------

fn is_named_piece_exec(p: &Vec<char>) -> (r: bool)
    ensures
        r == is_named_piece(p@),
{
    if p.len() == 0 {
        return false;
    }
    if p.len() == 1 && p[0] == '.' {
        assert(p@ =~= seq!['.']);
        return false;
    }
    assert(p@.len() != 1 || p@[0] != '.');
    true
}

/// The named pieces of `ps[from..]`.
fn named_pieces_from(ps: &Vec<Vec<char>>, from: usize) -> (r: Vec<Vec<char>>)
    requires
        from <= ps.len(),
    ensures
        texts(r@) == named_pieces(texts(ps@).skip(from as int)),
{
    let ghost rest = texts(ps@).skip(from as int);
    let mut out: Vec<Vec<char>> = Vec::new();
    let mut i: usize = from;
    while i < ps.len()
        invariant
            from <= i <= ps.len(),
            rest == texts(ps@).skip(from as int),
            texts(out@) == named_pieces(rest.take(i - from)),
        decreases ps.len() - i,
    {
        assert(rest.take(i + 1 - from).drop_last() =~= rest.take(i - from));
        assert(rest[i - from] == ps@[i as int]@);
        if is_named_piece_exec(&ps[i]) {
            let p = slice_chars(&ps[i], 0, ps[i].len());
            assert(p@ =~= ps@[i as int]@);
            out.push(p);
        }
        i = i + 1;
        assert(texts(out@) =~= named_pieces(rest.take(i - from)));
    }
    assert(rest.take(ps.len() - from) =~= rest);
    out
}

/// A one-character component.
fn single(c: char) -> (r: Vec<char>)
    ensures
        r@ == seq![c],
{
    let mut r: Vec<char> = Vec::new();
    r.push(c);
    assert(r@ =~= seq![c]);
    r
}

pub fn path_components(v: &Vec<char>) -> (r: Vec<Vec<char>>)
    ensures
        texts(r@) == components(v@),
{
    let ps = split_chars(v, CharClass::Exactly('/'));
    proof {
        lemma_split_on_nonempty(v@, CharClass::Exactly('/'));
    }
    let ghost psv = texts(ps@);
    assert(psv.skip(1) =~= psv.drop_first());
    if v.len() > 0 && v[0] == '/' {
        let mut body = named_pieces_from(&ps, 1);
        let mut out: Vec<Vec<char>> = Vec::new();
        out.push(single('/'));
        out.append(&mut body);
        assert(texts(out@) =~= seq![root_component()] + named_pieces(psv.drop_first()));
        out
    } else if ps[0].len() == 1 && ps[0][0] == '.' {
        assert(psv[0] =~= cur_dir_component());
        let mut body = named_pieces_from(&ps, 1);
        let mut out: Vec<Vec<char>> = Vec::new();
        out.push(single('.'));
        out.append(&mut body);
        assert(texts(out@) =~= seq![cur_dir_component()] + named_pieces(psv.drop_first()));
        out
    } else {
        assert(psv[0] != cur_dir_component()) by {
            if psv[0] == cur_dir_component() {
                assert(psv[0].len() == 1 && psv[0][0] == '.');
            }
        }
        assert(psv.skip(0) =~= psv);
        named_pieces_from(&ps, 0)
    }
}

fn is_normal_component_exec(c: &Vec<char>) -> (r: bool)
    ensures
        r == is_normal_component(c@),
{
    if c.len() == 1 && (c[0] == '/' || c[0] == '.') {
        assert(c@ =~= seq![c@[0]]);
        return false;
    }
    if c.len() == 2 && c[0] == '.' && c[1] == '.' {
        assert(c@ =~= seq!['.', '.']);
        return false;
    }
    assert(c@ != root_component() && c@ != cur_dir_component()) by {
        if c@ == root_component() || c@ == cur_dir_component() {
            assert(c@.len() == 1);
        }
    }
    assert(c@ != seq!['.', '.']) by {
        if c@ == seq!['.', '.'] {
            assert(c@.len() == 2 && c@[0] == '.' && c@[1] == '.');
        }
    }
    true
}

/// `Path::file_name` of a path's characters.
pub fn file_name_chars(v: &Vec<char>) -> (r: Option<Vec<char>>)
    ensures
        file_name(v@) == match r {
            Some(n) => Some(n@),
            None => None::<Seq<char>>,
        },
{
    let cs = path_components(v);
    if cs.len() > 0 && is_normal_component_exec(&cs[cs.len() - 1]) {
        let last = &cs[cs.len() - 1];
        assert(texts(cs@).last() == last@);
        let n = slice_chars(last, 0, last.len());
        assert(n@ =~= last@);
        Some(n)
    } else {
        None
    }
}

/// Index of the last '.' in `n`, if any.
fn last_dot_exec(n: &Vec<char>) -> (r: Option<usize>)
    ensures
        match r {
            Some(d) => d < n.len() && last_dot(n@) == d as int,
            None => last_dot(n@) == -1,
        },
{
    let mut k: usize = n.len();
    assert(n@.take(k as int) =~= n@);
    while k > 0
        invariant
            k <= n.len(),
            last_dot(n@) == last_dot(n@.take(k as int)),
        decreases k,
    {
        assert(n@.take(k as int).drop_last() =~= n@.take(k - 1));
        if n[k - 1] == '.' {
            return Some(k - 1);
        }
        k = k - 1;
    }
    assert(n@.take(0) =~= Seq::<char>::empty());
    None
}

/// `Path::extension` of a path's characters.
pub fn extension_chars(v: &Vec<char>) -> (r: Option<Vec<char>>)
    ensures
        extension(v@) == match r {
            Some(e) => Some(e@),
            None => None::<Seq<char>>,
        },
{
    match file_name_chars(v) {
        Some(n) => {
            match last_dot_exec(&n) {
                Some(d) => {
                    if d == 0 {
                        None
                    } else {
                        let e = slice_chars(&n, d + 1, n.len());
                        assert(e@ =~= n@.skip(d + 1));
                        Some(e)
                    }
                },
                None => None,
            }
        },
        None => None,
    }
}

/// `PathBuf::push` of a relative component onto a path's characters.
pub fn push_component(base: &mut Vec<char>, comp: &Vec<char>)
    ensures
        final(base)@ == push_path(old(base)@, comp@),
{
    if base.len() > 0 && base[base.len() - 1] != '/' {
        base.push('/');
    }
    let ghost mid = base@;
    let mut i: usize = 0;
    while i < comp.len()
        invariant
            i <= comp.len(),
            base@ == mid + comp@.take(i as int),
        decreases comp.len() - i,
    {
        base.push(comp[i]);
        i = i + 1;
        assert(base@ =~= mid + comp@.take(i as int));
    }
    assert(comp@.take(comp.len() as int) =~= comp@);
    assert(base@ =~= push_path(old(base)@, comp@));
}

/// `components(a)` is a prefix of `components(b)`.
pub open spec fn is_component_prefix(a: Seq<Seq<char>>, b: Seq<Seq<char>>) -> bool {
    a.len() <= b.len() && b.take(a.len() as int) == a
}

pub fn component_prefix_exec(a: &Vec<Vec<char>>, b: &Vec<Vec<char>>) -> (r: bool)
    ensures
        r == is_component_prefix(texts(a@), texts(b@)),
{
    if a.len() > b.len() {
        return false;
    }
    let mut i: usize = 0;
    while i < a.len()
        invariant
            a.len() <= b.len(),
            i <= a.len(),
            forall|j: int| 0 <= j < i ==> a@[j]@ == b@[j]@,
        decreases a.len() - i,
    {
        if !chars_eq(&a[i], &b[i]) {
            assert(texts(b@).take(a.len() as int)[i as int] != texts(a@)[i as int]);
            return false;
        }
        i = i + 1;
    }
    assert(texts(b@).take(a.len() as int) =~= texts(a@));
    true
}

/// How many components `path` has beyond `root` when `root`'s components
/// begin `path`'s, else 0 (`path.strip_prefix(root)` then a component count).
pub open spec fn depth_below(path: Seq<char>, root: Seq<char>) -> nat {
    let pc = components(path);
    let rc = components(root);
    if is_component_prefix(rc, pc) {
        (pc.len() - rc.len()) as nat
    } else {
        0
    }
}

pub fn depth_below_exec(path: &Vec<char>, root: &Vec<char>) -> (r: usize)
    ensures
        r == depth_below(path@, root@),
{
    let pc = path_components(path);
    let rc = path_components(root);
    if component_prefix_exec(&rc, &pc) {
        pc.len() - rc.len()
    } else {
        0
    }
}

// ---------------------------------------------------------------------------
// Parent of a path
// ---------------------------------------------------------------------------

/// Length of what precedes a path's body: a leading '/' (the root), or the
/// "." of a relative path that starts with a current-directory component.
pub open spec fn body_start(s: Seq<char>) -> int {
    if s.len() > 0 && s[0] == '/' {
        1
    } else if s.len() > 0 && s[0] == '.' && (s.len() == 1 || s[1] == '/') {
        1
    } else {
        0
    }
}

/// `t` without the empty and "." pieces at its end, never cutting into its
/// first `from` characters (what `Components` skips when read from the back).
pub open spec fn trim_back(t: Seq<char>, from: int) -> Seq<char>
    decreases t.len(),
{
    if t.len() > from && t.len() > 0 {
        if t.last() == '/' {
            trim_back(t.drop_last(), from)
        } else if t.last() == '.' && t.len() - 1 == from {
            trim_back(t.drop_last(), from)
        } else if t.last() == '.' && t.len() >= 2 && t[t.len() - 2] == '/' {
            trim_back(t.take(t.len() - 2), from)
        } else {
            t
        }
    } else {
        t
    }
}

/// Position of the last '/' of `t` at or after `from`, or -1.
pub open spec fn last_sep_from(t: Seq<char>, from: int) -> int
    decreases t.len(),
{
    if t.len() == 0 || t.len() <= from {
        -1
    } else if t.last() == '/' {
        t.len() - 1
    } else {
        last_sep_from(t.drop_last(), from)
    }
}

/// `Path::parent`: the path without its last component, itself trimmed of
/// trailing separators and "." pieces; `None` for a root or an empty path.
/// A lone current-directory component has the empty path as its parent.
pub open spec fn parent(s: Seq<char>) -> Option<Seq<char>> {
    let from = body_start(s);
    let t = trim_back(s, from);
    if t.len() > from {
        let k = last_sep_from(t, from);
        Some(trim_back(t.take(if k >= 0 { k } else { from }), from))
    } else if s.len() > 0 && s[0] == '.' && from == 1 {
        Some(Seq::empty())
    } else {
        None
    }
}

/// Length of `trim_back(v.take(n), from)`.
fn trim_back_len(v: &Vec<char>, from: usize, n: usize) -> (m: usize)
    requires
        n <= v.len(),
    ensures
        m <= n,
        v@.take(m as int) == trim_back(v@.take(n as int), from as int),
{
    let mut m: usize = n;
    while m > from && m > 0
        invariant
            m <= n <= v.len(),
            trim_back(v@.take(m as int), from as int) == trim_back(v@.take(n as int), from as int),
        decreases m,
    {
        let ghost t = v@.take(m as int);
        assert(t.drop_last() =~= v@.take(m - 1));
        assert(t.last() == v@[m - 1]);
        if v[m - 1] == '/' {
            m = m - 1;
        } else if v[m - 1] == '.' && m - 1 == from {
            m = m - 1;
        } else if v[m - 1] == '.' && m >= 2 && v[m - 2] == '/' {
            assert(t[t.len() - 2] == v@[m - 2]);
            assert(t.take(t.len() - 2) =~= v@.take(m - 2));
            m = m - 2;
        } else {
            return m;
        }
    }
    m
}

/// `last_sep_from(v.take(n), from)`, with -1 as `None`.
fn last_sep_index(v: &Vec<char>, from: usize, n: usize) -> (r: Option<usize>)
    requires
        n <= v.len(),
    ensures
        match r {
            Some(k) => from <= k < n && last_sep_from(v@.take(n as int), from as int) == k as int,
            None => last_sep_from(v@.take(n as int), from as int) == -1,
        },
{
    let mut m: usize = n;
    while m > 0 && m > from
        invariant
            m <= n <= v.len(),
            last_sep_from(v@.take(m as int), from as int) == last_sep_from(v@.take(n as int), from as int),
        decreases m,
    {
        let ghost t = v@.take(m as int);
        assert(t.drop_last() =~= v@.take(m - 1));
        assert(t.last() == v@[m - 1]);
        if v[m - 1] == '/' {
            return Some(m - 1);
        }
        m = m - 1;
    }
    None
}

/// `Path::parent` of a path's characters.
pub fn parent_chars(v: &Vec<char>) -> (r: Option<Vec<char>>)
    ensures
        parent(v@) == match r {
            Some(p) => Some(p@),
            None => None::<Seq<char>>,
        },
{
    let from: usize = if v.len() > 0 && v[0] == '/' {
        1
    } else if v.len() > 0 && v[0] == '.' && (v.len() == 1 || v[1] == '/') {
        1
    } else {
        0
    };
    assert(from as int == body_start(v@));
    assert(v@.take(v.len() as int) =~= v@);
    let m = trim_back_len(v, from, v.len());
    if m > from {
        let ghost t = v@.take(m as int);
        let cut: usize = match last_sep_index(v, from, m) {
            Some(k) => k,
            None => from,
        };
        assert(t.take(cut as int) =~= v@.take(cut as int));
        let c = trim_back_len(v, from, cut);
        let p = slice_chars(v, 0, c);
        assert(p@ =~= v@.take(c as int));
        Some(p)
    } else if v.len() > 0 && v[0] == '.' && from == 1 {
        Some(Vec::new())
    } else {
        None
    }
}

// ---------------------------------------------------------------------------
// Components of a parent
// ---------------------------------------------------------------------------

spec fn pieces(s: Seq<char>) -> Seq<Seq<char>> {
    split_on(s, CharClass::Exactly('/'))
}

proof fn lemma_pieces_end_empty(w: Seq<char>)
    requires
        w.len() == 0 || w.last() == '/',
    ensures
        pieces(w).last() == Seq::<char>::empty(),
        pieces(w).len() >= 1,
{
    lemma_split_on_nonempty(w, CharClass::Exactly('/'));
    if w.len() > 0 {
        lemma_split_on_nonempty(w.drop_last(), CharClass::Exactly('/'));
    }
}

proof fn lemma_named_push_unnamed(ps: Seq<Seq<char>>, x: Seq<char>)
    requires
        !is_named_piece(x),
    ensures
        named_pieces(ps.push(x)) == named_pieces(ps),
{
    assert(ps.push(x).drop_last() =~= ps);
}

proof fn lemma_named_skip_first(ps: Seq<Seq<char>>)
    requires
        ps.len() >= 1,
        !is_named_piece(ps[0]),
    ensures
        named_pieces(ps) == named_pieces(ps.drop_first()),
    decreases ps.len(),
{
    if ps.len() == 1 {
        assert(ps.drop_first() =~= Seq::<Seq<char>>::empty());
        assert(ps.drop_last() =~= Seq::<Seq<char>>::empty());
    } else {
        assert(ps.drop_last()[0] == ps[0]);
        lemma_named_skip_first(ps.drop_last());
        assert(ps.drop_last().drop_first() =~= ps.drop_first().drop_last());
        assert(ps.drop_first().last() == ps.last());
    }
}

/// An absolute path's pieces begin with the empty piece before its root.
proof fn lemma_pieces_absolute(t: Seq<char>)
    requires
        t.len() >= 1,
        t[0] == '/',
    ensures
        pieces(t).len() >= 2,
        pieces(t)[0] == Seq::<char>::empty(),
        components(t) == seq![root_component()] + named_pieces(pieces(t)),
    decreases t.len(),
{
    if t.len() == 1 {
        assert(t.drop_last() =~= Seq::<char>::empty());
        assert(pieces(t.drop_last()) =~= seq![Seq::<char>::empty()]);
    } else {
        assert(t.drop_last()[0] == '/');
        lemma_pieces_absolute(t.drop_last());
    }
    lemma_named_skip_first(pieces(t));
}

/// A trailing separator or "." piece names nothing.
proof fn lemma_trim_back_keeps_named(t: Seq<char>)
    requires
        t.len() >= 1,
        t[0] == '/',
    ensures
        1 <= trim_back(t, 1).len() <= t.len(),
        trim_back(t, 1) == t.take(trim_back(t, 1).len() as int),
        named_pieces(pieces(trim_back(t, 1))) == named_pieces(pieces(t)),
        trim_back(t, 1).len() > 1 ==> trim_back(t, 1).last() != '/' && !(trim_back(t, 1).last() == '.' && (
        trim_back(t, 1).len() - 1 == 1 || trim_back(t, 1)[trim_back(t, 1).len() - 2] == '/')),
    decreases t.len(),
{
    if t.len() > 1 {
        if t.last() == '/' {
            let d = t.drop_last();
            assert(d[0] == '/');
            lemma_named_push_unnamed(pieces(d), Seq::empty());
            lemma_trim_back_keeps_named(d);
            assert(trim_back(d, 1) == d.take(trim_back(d, 1).len() as int));
            assert(d.take(trim_back(d, 1).len() as int) =~= t.take(trim_back(d, 1).len() as int));
        } else if t.last() == '.' && (t.len() - 1 == 1 || t[t.len() - 2] == '/') {
            let d = t.drop_last();
            assert(d.last() == '/') by {
                if t.len() - 1 == 1 {
                    assert(d[0] == '/');
                } else {
                    assert(d.last() == t[t.len() - 2]);
                }
            }
            lemma_pieces_end_empty(d);
            let pd = pieces(d);
            assert(pieces(t) == pd.update(pd.len() - 1, pd.last().push('.')));
            assert(pd.last().push('.') =~= seq!['.']);
            assert(pieces(t) =~= pd.drop_last().push(seq!['.']));
            lemma_named_push_unnamed(pd.drop_last(), seq!['.']);
            assert(pd =~= pd.drop_last().push(Seq::empty()));
            lemma_named_push_unnamed(pd.drop_last(), Seq::empty());
            if t.len() - 1 == 1 {
                assert(d[0] == '/');
                lemma_trim_back_keeps_named(d);
                assert(d.take(trim_back(d, 1).len() as int) =~= t.take(trim_back(d, 1).len() as int));
            } else {
                let e = t.take(t.len() - 2);
                assert(d.drop_last() =~= e);
                assert(e[0] == '/');
                lemma_pieces_end_empty(e.push('/'));
                assert(e.push('/') =~= d);
                lemma_named_push_unnamed(pieces(e), Seq::empty());
                lemma_trim_back_keeps_named(e);
                assert(e.take(trim_back(e, 1).len() as int) =~= t.take(trim_back(e, 1).len() as int));
            }
        } else {
            assert(t.take(t.len() as int) =~= t);
        }
    } else {
        assert(t.take(t.len() as int) =~= t);
    }
}

proof fn lemma_last_sep(t: Seq<char>, from: int)
    requires
        0 <= from,
    ensures
        last_sep_from(t, from) == -1 ==> forall|j: int| from <= j < t.len() ==> t[j] != '/',
        last_sep_from(t, from) != -1 ==> from <= last_sep_from(t, from) < t.len() && t[last_sep_from(
            t,
            from,
        )] == '/' && forall|j: int| last_sep_from(t, from) < j < t.len() ==> t[j] != '/',
    decreases t.len(),
{
    if t.len() > 0 && t.len() > from && t.last() != '/' {
        lemma_last_sep(t.drop_last(), from);
        assert forall|j: int| from <= j < t.len() - 1 implies t[j] == t.drop_last()[j] by {}
    }
}

/// Pieces of `w`, a separator, then text without separators.
proof fn lemma_pieces_append(w: Seq<char>, u: Seq<char>)
    requires
        forall|j: int| 0 <= j < u.len() ==> u[j] != '/',
    ensures
        pieces(w + seq!['/'] + u) == pieces(w).push(u),
    decreases u.len(),
{
    lemma_split_on_nonempty(w, CharClass::Exactly('/'));
    if u.len() == 0 {
        assert(w + seq!['/'] + u =~= w.push('/'));
        assert((w.push('/')).drop_last() =~= w);
        assert((w.push('/')).last() == '/');
        assert(in_class(CharClass::Exactly('/'), '/'));
        assert(u =~= Seq::<char>::empty());
        assert(pieces(w.push('/')) == pieces(w).push(Seq::empty()));
    } else {
        let v = u.drop_last();
        lemma_pieces_append(w, v);
        assert((w + seq!['/'] + u).drop_last() =~= w + seq!['/'] + v);
        assert((w + seq!['/'] + u).last() == u.last());
        assert(u.last() == u[u.len() - 1]);
        assert(v.push(u.last()) =~= u);
        assert(pieces(w).push(v).update(pieces(w).len() as int, v.push(u.last())) =~= pieces(w).push(u));
    }
}

/// For an absolute path, `parent` drops exactly the last component, and it
/// exists whenever there is a component below the root.
pub proof fn lemma_parent_drops_last_component(s: Seq<char>)
    requires
        s.len() >= 1,
        s[0] == '/',
    ensures
        components(s).len() >= 2 ==> parent(s) is Some,
        parent(s) matches Some(p) ==> p.len() >= 1 && p[0] == '/' && components(p) == components(
            s,
        ).drop_last(),
{
    lemma_trim_back_keeps_named(s);
    let t = trim_back(s, 1);
    assert(body_start(s) == 1);
    assert(t[0] == '/') by {
        assert(t == s.take(t.len() as int));
        assert(s.take(t.len() as int)[0] == s[0]);
    }
    lemma_pieces_absolute(s);
    lemma_pieces_absolute(t);
    if t.len() > 1 {
        lemma_last_sep(t, 1);
        let k = last_sep_from(t, 1);
        let c = if k >= 0 { k } else { 1 };
        let w = t.take(c);
        let u = if k >= 0 { t.skip(k + 1) } else { t.skip(1) };
        assert(forall|j: int| 0 <= j < u.len() ==> u[j] == t[t.len() - u.len() + j]);
        assert(w[0] == '/');
        assert(u.len() > 0);
        assert(u.last() == t.last());
        assert(is_named_piece(u)) by {
            if u == seq!['.'] {
                assert(t.last() == '.');
                if k >= 0 {
                    assert(t[t.len() - 2] == '/');
                } else {
                    assert(t.len() - 1 == 1);
                }
            }
        }
        if k >= 0 {
            assert(t =~= w + seq!['/'] + u);
            lemma_pieces_append(w, u);
            assert(pieces(w).push(u).drop_last() =~= pieces(w));
            assert(named_pieces(pieces(t)) == named_pieces(pieces(w)).push(u));
        } else {
            let z = seq![Seq::<char>::empty()];
            assert(w =~= seq!['/']);
            lemma_pieces_append(Seq::empty(), u);
            assert(Seq::<char>::empty() + seq!['/'] + u =~= t);
            assert(pieces(Seq::<char>::empty()) =~= z);
            assert(!is_named_piece(Seq::<char>::empty()));
            assert(named_pieces(z) =~= Seq::<Seq<char>>::empty()) by {
                assert(z.last() == Seq::<char>::empty());
                assert(z.drop_last() =~= Seq::<Seq<char>>::empty());
                assert(named_pieces(Seq::<Seq<char>>::empty()) == Seq::<Seq<char>>::empty());
            }
            assert(z.push(u).drop_last() =~= z);
            assert(named_pieces(pieces(t)) =~= seq![u]);
            assert(pieces(w) == z.push(Seq::empty())) by {
                assert(w.drop_last() =~= Seq::<char>::empty());
                assert(w.last() == '/');
                assert(in_class(CharClass::Exactly('/'), '/'));
            }
            lemma_named_push_unnamed(z, Seq::empty());
            assert(named_pieces(pieces(w)).push(u) =~= seq![u]);
        }
        lemma_trim_back_keeps_named(w);
        let p = trim_back(w, 1);
        assert(p[0] == '/') by {
            assert(p == w.take(p.len() as int));
            assert(w.take(p.len() as int)[0] == w[0]);
        }
        lemma_pieces_absolute(w);
        lemma_pieces_absolute(p);
        assert(components(s).drop_last() =~= seq![root_component()] + named_pieces(pieces(w)));
    } else {
        assert(t.len() == 1);
        assert(t =~= seq!['/']);
        assert(pieces(t) =~= seq![Seq::<char>::empty(), Seq::<char>::empty()]) by {
            assert(t.drop_last() =~= Seq::<char>::empty());
            assert(pieces(Seq::<char>::empty()) == seq![Seq::<char>::empty()]);
            assert(t.last() == '/');
            assert(in_class(CharClass::Exactly('/'), '/'));
        }
        assert(named_pieces(seq![Seq::<char>::empty(), Seq::<char>::empty()]) =~= Seq::<Seq<char>>::empty()) by {
            let z = seq![Seq::<char>::empty(), Seq::<char>::empty()];
            assert(z.drop_last() =~= seq![Seq::<char>::empty()]);
            assert(z.drop_last().drop_last() =~= Seq::<Seq<char>>::empty());
            assert(named_pieces(Seq::<Seq<char>>::empty()) == Seq::<Seq<char>>::empty());
            assert(!is_named_piece(Seq::<char>::empty()));
            assert(named_pieces(seq![Seq::<char>::empty()]) == Seq::<Seq<char>>::empty());
        }
    }
}

/// Going up from a directory strictly below a root (of at least one
/// component) stays at or below that root, component by component.
pub proof fn lemma_parent_stays_below_root(root: Seq<char>, current: Seq<char>)
    requires
        components(root).len() >= 1,
        is_component_prefix(components(root), components(current)),
        components(current) != components(root),
    ensures
        parent(current) matches Some(p) && is_component_prefix(components(root), components(p)),
{
    let rc = components(root);
    let cc = components(current);
    assert(cc.len() > rc.len()) by {
        if cc.len() == rc.len() {
            assert(cc.take(rc.len() as int) =~= cc);
        }
    }
    lemma_parent_drops_last(current);
    let p = parent(current)->0;
    assert(components(p).take(rc.len() as int) =~= cc.take(rc.len() as int));
}

/// Pushing a plain name onto an absolute path adds it as a component.
pub proof fn lemma_push_adds_component(b: Seq<char>, c: Seq<char>)
    requires
        b.len() >= 1,
        b[0] == '/',
        is_plain_name(c),
    ensures
        push_path(b, c).len() >= 1,
        push_path(b, c)[0] == '/',
        components(push_path(b, c)) == components(b).push(c),
{
    let s = push_path(b, c);
    lemma_pieces_absolute(b);
    assert(forall|j: int| 0 <= j < c.len() ==> c[j] != '/');
    if b.last() != '/' {
        assert(s == b + seq!['/'] + c);
        lemma_pieces_append(b, c);
        assert(s[0] == b[0]);
        lemma_pieces_absolute(s);
        assert(pieces(b).push(c).drop_last() =~= pieces(b));
    } else {
        let w = b.drop_last();
        assert(s == b + c);
        assert(b + c =~= w + seq!['/'] + c);
        assert(b =~= w.push('/'));
        lemma_pieces_append(w, c);
        lemma_pieces_append(w, Seq::empty());
        assert(w + seq!['/'] + Seq::<char>::empty() =~= b);
        lemma_named_push_unnamed(pieces(w), Seq::empty());
        assert(s[0] == b[0]);
        lemma_pieces_absolute(s);
        assert(pieces(w).push(c).drop_last() =~= pieces(w));
    }
}

/// Pushing plain names onto an absolute root adds them as components.
pub proof fn lemma_join_adds_components(root: Seq<char>, q: Seq<Seq<char>>)
    requires
        root.len() >= 1,
        root[0] == '/',
        forall|k: int| 0 <= k < q.len() ==> is_plain_name(#[trigger] q[k]),
    ensures
        join_path(root, q).len() >= 1,
        join_path(root, q)[0] == '/',
        components(join_path(root, q)) == components(root) + q,
    decreases q.len(),
{
    if q.len() == 0 {
        assert(components(root) + q =~= components(root));
    } else {
        assert forall|k: int| 0 <= k < q.drop_last().len() implies is_plain_name(#[trigger] q.drop_last()[k]) by {
            assert(q.drop_last()[k] == q[k]);
        }
        lemma_join_adds_components(root, q.drop_last());
        assert(is_plain_name(q[q.len() - 1]));
        lemma_push_adds_component(join_path(root, q.drop_last()), q.last());
        assert((components(root) + q.drop_last()).push(q.last()) =~= components(root) + q);
    }
}

/// The first piece of a path: the text before its first '/'.
proof fn lemma_first_piece(x: Seq<char>)
    ensures
        pieces(x).len() >= 1,
        exists|j: int|
            0 <= j <= x.len() && pieces(x)[0] == #[trigger] x.take(j) && (j == x.len() || x[j] == '/')
                && (forall|i: int| 0 <= i < j ==> x[i] != '/') && ((pieces(x).len() == 1) == (j == x.len())),
    decreases x.len(),
{
    lemma_split_on_nonempty(x, CharClass::Exactly('/'));
    if x.len() == 0 {
        assert(pieces(x)[0] == x.take(0));
    } else {
        let d = x.drop_last();
        lemma_first_piece(d);
        lemma_split_on_nonempty(d, CharClass::Exactly('/'));
        let j = choose|j: int|
            0 <= j <= d.len() && pieces(d)[0] == #[trigger] d.take(j) && (j == d.len() || d[j] == '/')
                && (forall|i: int| 0 <= i < j ==> d[i] != '/') && ((pieces(d).len() == 1) == (j == d.len()));
        assert(d.take(j) =~= x.take(j));
        assert forall|i: int| 0 <= i < j implies x[i] != '/' by {
            assert(x[i] == d[i]);
        }
        if x.last() == '/' {
            assert(in_class(CharClass::Exactly('/'), x.last()));
            assert(pieces(x) == pieces(d).push(Seq::empty()));
            assert(pieces(x)[0] == pieces(d)[0]);
            if j == d.len() {
                assert(x[j] == x.last());
            } else {
                assert(x[j] == d[j]);
            }
        } else {
            let pd = pieces(d);
            assert(pieces(x) == pd.update(pd.len() - 1, pd.last().push(x.last())));
            if pd.len() == 1 {
                assert(pieces(x)[0] == d.take(j).push(x.last()));
                assert(d.take(j).push(x.last()) =~= x.take(x.len() as int));
                assert forall|i: int| 0 <= i < x.len() implies x[i] != '/' by {
                    if i < d.len() {
                        assert(x[i] == d[i]);
                    } else {
                        assert(x[i] == x.last());
                    }
                }
                assert(x.take(x.len() as int) == pieces(x)[0]);
            } else {
                assert(pieces(x)[0] == pd[0]);
                assert(x[j] == d[j]);
            }
        }
    }
}

/// A relative path that starts with a current-directory component.
pub open spec fn starts_at_cur_dir(x: Seq<char>) -> bool {
    x.len() >= 1 && x[0] == '.' && (x.len() == 1 || x[1] == '/')
}

/// The components of a path: its head (the root, a current-directory
/// component, or nothing) and the named pieces.
proof fn lemma_components_by_mode(x: Seq<char>)
    ensures
        x.len() >= 1 && x[0] == '/' ==> components(x) == seq![root_component()] + named_pieces(pieces(x)),
        starts_at_cur_dir(x) ==> components(x) == seq![cur_dir_component()] + named_pieces(pieces(x)),
        !(x.len() >= 1 && x[0] == '/') && !starts_at_cur_dir(x) ==> components(x) == named_pieces(pieces(x)),
{
    lemma_first_piece(x);
    let j = choose|j: int|
        0 <= j <= x.len() && pieces(x)[0] == #[trigger] x.take(j) && (j == x.len() || x[j] == '/')
            && (forall|i: int| 0 <= i < j ==> x[i] != '/') && ((pieces(x).len() == 1) == (j == x.len()));
    if x.len() >= 1 && x[0] == '/' {
        lemma_pieces_absolute(x);
    } else if starts_at_cur_dir(x) {
        assert(j == 1);
        assert(x.take(1) =~= seq!['.']);
        assert(!is_named_piece(pieces(x)[0]));
        lemma_named_skip_first(pieces(x));
    } else {
        if pieces(x)[0] == cur_dir_component() {
            assert(x.take(j).len() == 1);
            assert(x[0] == x.take(j)[0]);
        }
    }
}

/// `trim_back` keeps the named pieces, cuts only at a separator (or at the
/// body's start), and stops at a named last piece.
proof fn lemma_trim_back_general(t: Seq<char>, from: int)
    requires
        from == 0 || (from == 1 && t.len() >= 1 && (t[0] == '/' || starts_at_cur_dir(t))),
    ensures
        ({
            let r = trim_back(t, from);
            &&& from <= r.len() <= t.len() || (t.len() < from && r == t)
            &&& r == t.take(r.len() as int)
            &&& named_pieces(pieces(r)) == named_pieces(pieces(t))
            &&& (r.len() == t.len() || r.len() == from || t[r.len() as int] == '/')
            &&& (r.len() > from ==> r.last() != '/' && !(r.last() == '.' && (r.len() - 1 == from || r[r.len()
                - 2] == '/')))
        }),
    decreases t.len(),
{
    if t.len() > from && t.len() > 0 {
        if t.last() == '/' {
            let d = t.drop_last();
            if from == 1 {
                assert(d[0] == t[0]);
                assert(d.len() >= 2 ==> d[1] == t[1]);
            }
            lemma_pieces_append(d, Seq::empty());
            assert(d + seq!['/'] + Seq::<char>::empty() =~= t);
            lemma_named_push_unnamed(pieces(d), Seq::empty());
            lemma_trim_back_general(d, from);
            let r = trim_back(d, from);
            assert(d.take(r.len() as int) =~= t.take(r.len() as int));
            if r.len() < d.len() && r.len() != from {
                assert(t[r.len() as int] == d[r.len() as int]);
            }
        } else if t.last() == '.' && t.len() - 1 == from {
            let d = t.drop_last();
            assert(d.len() == 0 || d.last() == '/') by {
                if d.len() > 0 {
                    assert(from == 1);
                    assert(t[0] != '.' || t[1] == '/');
                    assert(d.last() == t[0]);
                    if t[0] == '.' {
                        assert(t[1] == t.last());
                    }
                }
            }
            lemma_pieces_end_empty(d);
            let pd = pieces(d);
            assert(pieces(t) == pd.update(pd.len() - 1, pd.last().push('.')));
            assert(pd.last().push('.') =~= seq!['.']);
            assert(pieces(t) =~= pd.drop_last().push(seq!['.']));
            lemma_named_push_unnamed(pd.drop_last(), seq!['.']);
            assert(pd =~= pd.drop_last().push(Seq::empty()));
            lemma_named_push_unnamed(pd.drop_last(), Seq::empty());
            assert(trim_back(d, from) == d);
            assert(d =~= t.take(d.len() as int));
        } else if t.last() == '.' && t.len() >= 2 && t[t.len() - 2] == '/' {
            let d = t.drop_last();
            let e = t.take(t.len() - 2);
            assert(d.last() == '/');
            lemma_pieces_end_empty(d);
            let pd = pieces(d);
            assert(pieces(t) == pd.update(pd.len() - 1, pd.last().push('.')));
            assert(pd.last().push('.') =~= seq!['.']);
            assert(pieces(t) =~= pd.drop_last().push(seq!['.']));
            lemma_named_push_unnamed(pd.drop_last(), seq!['.']);
            assert(pd =~= pd.drop_last().push(Seq::empty()));
            lemma_named_push_unnamed(pd.drop_last(), Seq::empty());
            assert(e.push('/') =~= d);
            lemma_pieces_append(e, Seq::empty());
            assert(e + seq!['/'] + Seq::<char>::empty() =~= d);
            lemma_named_push_unnamed(pieces(e), Seq::empty());
            if from == 1 {
                assert(e.len() >= 1);
                assert(e[0] == t[0]);
                assert(e.len() >= 2 ==> e[1] == t[1]);
            }
            lemma_trim_back_general(e, from);
            let r = trim_back(e, from);
            assert(e.take(r.len() as int) =~= t.take(r.len() as int));
            if r.len() < e.len() && r.len() != from {
                assert(t[r.len() as int] == e[r.len() as int]);
            }
        } else {
            assert(t.take(t.len() as int) =~= t);
        }
    } else {
        assert(t.take(t.len() as int) =~= t);
    }
}

/// `parent` drops exactly the last component of any path with two or more.
pub proof fn lemma_parent_drops_last(s: Seq<char>)
    requires
        components(s).len() >= 2,
    ensures
        parent(s) matches Some(p) && components(p) == components(s).drop_last(),
{
    if s.len() >= 1 && s[0] == '/' {
        lemma_parent_drops_last_component(s);
        return;
    }
    let cur = starts_at_cur_dir(s);
    let from = body_start(s);
    assert(from == if cur { 1int } else { 0int });
    lemma_components_by_mode(s);
    lemma_trim_back_general(s, from);
    let t = trim_back(s, from);
    let head: Seq<Seq<char>> = if cur { seq![cur_dir_component()] } else { Seq::empty() };
    assert(components(s) == head + named_pieces(pieces(t)));
    if t.len() <= from {
        if cur {
            assert(t =~= seq!['.']);
            assert(pieces(t) =~= seq![seq!['.']]) by {
                assert(t.drop_last() =~= Seq::<char>::empty());
                assert(!in_class(CharClass::Exactly('/'), '.'));
                assert(pieces(Seq::<char>::empty()) == seq![Seq::<char>::empty()]);
                assert(seq![Seq::<char>::empty()].update(0, Seq::<char>::empty().push('.')) =~= seq![seq!['.']]);
            }
            assert(named_pieces(seq![seq!['.']]) == Seq::<Seq<char>>::empty()) by {
                assert(!is_named_piece(seq!['.']));
                assert(seq![seq!['.']].drop_last() =~= Seq::<Seq<char>>::empty());
                assert(named_pieces(Seq::<Seq<char>>::empty()) == Seq::<Seq<char>>::empty());
            }
        } else {
            assert(t =~= Seq::<char>::empty());
            assert(pieces(t) == seq![Seq::<char>::empty()]);
            assert(named_pieces(seq![Seq::<char>::empty()]) == Seq::<Seq<char>>::empty()) by {
                assert(!is_named_piece(Seq::<char>::empty()));
                assert(seq![Seq::<char>::empty()].drop_last() =~= Seq::<Seq<char>>::empty());
                assert(named_pieces(Seq::<Seq<char>>::empty()) == Seq::<Seq<char>>::empty());
            }
        }
        assert(false);
    }
    lemma_last_sep(t, from);
    let k = last_sep_from(t, from);
    let c = if k >= 0 { k } else { from };
    let w = t.take(c);
    let u = if k >= 0 { t.skip(k + 1) } else { t.skip(from) };
    assert(forall|j: int| 0 <= j < u.len() ==> u[j] == t[t.len() - u.len() + j]);
    assert(u.len() > 0);
    assert(u.last() == t.last());
    assert(is_named_piece(u)) by {
        if u == seq!['.'] {
            assert(t.last() == '.');
            if k >= 0 {
                assert(t[t.len() - 2] == '/');
            } else {
                assert(t.len() - 1 == from);
            }
        }
    }
    if k >= 0 {
        assert(t =~= w + seq!['/'] + u);
        lemma_pieces_append(w, u);
    } else {
        assert(from == 0) by {
            if from == 1 {
                assert(t.len() >= 2);
                assert(t[1] == s[1]);
                assert(t[1] == '/');
            }
        }
        assert(w =~= Seq::<char>::empty());
        assert(t =~= u);
        lemma_first_piece(t);
        let j = choose|j: int|
            0 <= j <= t.len() && pieces(t)[0] == #[trigger] t.take(j) && (j == t.len() || t[j] == '/')
                && (forall|i: int| 0 <= i < j ==> t[i] != '/') && ((pieces(t).len() == 1) == (j == t.len()));
        assert(j == t.len());
        assert(t.take(j) =~= t);
        assert(pieces(t) =~= seq![u]);
        assert(pieces(w) == seq![Seq::<char>::empty()]);
        assert(seq![Seq::<char>::empty()].push(u) =~= seq![Seq::<char>::empty(), u]);
        assert(named_pieces(seq![u]) == seq![u]) by {
            assert(seq![u].drop_last() =~= Seq::<Seq<char>>::empty());
            assert(named_pieces(Seq::<Seq<char>>::empty()) == Seq::<Seq<char>>::empty());
        }
        assert(named_pieces(seq![Seq::<char>::empty()]) == Seq::<Seq<char>>::empty()) by {
            assert(!is_named_piece(Seq::<char>::empty()));
            assert(seq![Seq::<char>::empty()].drop_last() =~= Seq::<Seq<char>>::empty());
            assert(named_pieces(Seq::<Seq<char>>::empty()) == Seq::<Seq<char>>::empty());
        }
    }
    assert(named_pieces(pieces(t)) == named_pieces(pieces(w)).push(u)) by {
        if k >= 0 {
            assert(pieces(w).push(u).drop_last() =~= pieces(w));
        }
    }
    // The parent keeps the head.
    if cur {
        assert(w.len() >= 1 && w[0] == '.');
        assert(w.len() >= 2 ==> w[1] == '/');
    }
    lemma_trim_back_general(w, from);
    let p = trim_back(w, from);
    assert(parent(s) == Some(p));
    lemma_components_by_mode(w);
    lemma_components_by_mode(p);
    if cur {
        assert(p.len() >= 1 && p[0] == '.');
        assert(p.len() >= 2 ==> p[1] == w[1]);
        assert(starts_at_cur_dir(p));
    } else {
        assert(!(p.len() >= 1 && p[0] == '/')) by {
            if p.len() >= 1 {
                assert(p[0] == s[0]);
            }
        }
        assert(!starts_at_cur_dir(p)) by {
            if starts_at_cur_dir(p) {
                assert(p[0] == s[0]);
                if p.len() >= 2 {
                    assert(p[1] == s[1]);
                } else {
                    assert(p.len() == 1);
                    assert(w[1] == '/' || w.len() == 1);
                    if w.len() == 1 {
                        assert(k == 1 || from == 1);
                        assert(t[1] == '/');
                        assert(s[1] == t[1]);
                    } else {
                        assert(s[1] == w[1]);
                    }
                }
            }
        }
    }
    assert((head + named_pieces(pieces(w)).push(u)).drop_last() =~= head + named_pieces(pieces(w)));
}

} // verus!
