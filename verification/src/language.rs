//! The language registry: definitions in the order they were given, and the
//! file-name and extension tables that map a path to a language.
use vstd::prelude::*;
use indexmap::IndexMap;
use crate::paths::{extension, extension_chars, file_name, file_name_chars};
use crate::text::{chars_eq, from_chars, lowercase, push_char, to_chars, to_lowercase};
use vstd::string::StringExecFns;

verus! {

/// Color used for a language without one.
pub const FALLBACK_LANGUAGE_COLOR: &'static str = "#8b949e";

/// Color of the bucket that gathers small languages or hidden directories.
pub const OTHER_LANGUAGE_COLOR: &'static str = "#d0d7de";

/// One language as the generated definitions describe it.
#[derive(Clone, Debug)]
pub struct LanguageDefinition {
    pub language_type: Option<String>,
    pub color: Option<String>,
    pub extensions: Vec<String>,
    pub filenames: Vec<String>,
    pub aliases: Vec<String>,
    pub group: Option<String>,
}

#[verifier::external_type_specification]
#[verifier::external_body]
#[verifier::reject_recursive_types(K)]
#[verifier::reject_recursive_types(V)]
#[verifier::reject_recursive_types(S)]
pub struct ExIndexMap<K, V, S>(IndexMap<K, V, S>);

/// What an `IndexMap` of language definitions holds: its (name, definition)
/// pairs in the map's order.
pub uninterp spec fn language_entries(m: IndexMap<String, LanguageDefinition>) -> Seq<
    (Seq<char>, LanguageDefinition),
>;

/// The definition of the first entry named `name`.
pub open spec fn lookup_entry(entries: Seq<(Seq<char>, LanguageDefinition)>, name: Seq<char>) -> Option<
    LanguageDefinition,
>
    decreases entries.len(),
{
    if entries.len() == 0 {
        None
    } else if entries[0].0 == name {
        Some(entries[0].1)
    } else {
        lookup_entry(entries.drop_first(), name)
    }
}

/// `IndexMap::len`.
#[verifier::external_body]
fn definitions_len(m: &IndexMap<String, LanguageDefinition>) -> (n: usize)
    ensures
        n == language_entries(*m).len(),
{
    m.len()
}

/// `IndexMap::get_index`: the pair at position `i`, `None` past the end.
#[verifier::external_body]
fn definition_at(m: &IndexMap<String, LanguageDefinition>, i: usize) -> (r: Option<(&String, &LanguageDefinition)>)
    ensures
        r matches Some(p) ==> i < language_entries(*m).len() && p.0@ == language_entries(*m)[i as int].0
            && *p.1 == language_entries(*m)[i as int].1,
        r is None ==> i >= language_entries(*m).len(),
{
    m.get_index(i)
}

/// `IndexMap::get` by name: the definition stored under `name`.
#[verifier::external_body]
fn definition_get<'a>(m: &'a IndexMap<String, LanguageDefinition>, name: &str) -> (r: Option<&'a LanguageDefinition>)
    ensures
        lookup_entry(language_entries(*m), name@) == match r {
            Some(d) => Some(*d),
            None => None::<LanguageDefinition>,
        },
{
    m.get(name)
}

/// A language whose definition carries a color.
pub open spec fn has_color(entries: Seq<(Seq<char>, LanguageDefinition)>, name: Seq<char>) -> bool {
    lookup_entry(entries, name) matches Some(d) && d.color is Some
}

/// The (key, language) pairs that a table is built from, in insertion order.
pub type Occurrences = Seq<(Seq<char>, Seq<char>)>;

/// What a table holds for a key after `candidate` is inserted under it, given
/// what it held before: a new key takes the candidate; a held language is only
/// replaced when it has no color and the candidate has one.
pub open spec fn insert_step(
    entries: Seq<(Seq<char>, LanguageDefinition)>,
    prev: Option<Seq<char>>,
    candidate: Seq<char>,
) -> Option<Seq<char>> {
    match prev {
        None => Some(candidate),
        Some(existing) => if !has_color(entries, existing) && has_color(entries, candidate) {
            Some(candidate)
        } else {
            Some(existing)
        },
    }
}

/// The language a table holds for `key` after the pairs of `occ` were inserted
/// in order, one `insert_step` each.
pub open spec fn chosen(
    entries: Seq<(Seq<char>, LanguageDefinition)>,
    occ: Occurrences,
    key: Seq<char>,
) -> Option<Seq<char>>
    decreases occ.len(),
{
    if occ.len() == 0 {
        None
    } else {
        let prev = chosen(entries, occ.drop_last(), key);
        if occ.last().0 != key {
            prev
        } else {
            insert_step(entries, prev, occ.last().1)
        }
    }
}

/// The lower-cased keys of `values`, each paired with `language`.
pub open spec fn keyed(values: Seq<String>, language: Seq<char>) -> Occurrences {
    values.map_values(|v: String| (lowercase(v@), language))
}

/// Extension pairs of all definitions, in definition order.
pub open spec fn extension_occurrences(entries: Seq<(Seq<char>, LanguageDefinition)>) -> Occurrences
    decreases entries.len(),
{
    if entries.len() == 0 {
        Seq::empty()
    } else {
        extension_occurrences(entries.drop_last()) + keyed(
            entries.last().1.extensions@,
            entries.last().0,
        )
    }
}

/// File-name pairs of all definitions, in definition order.
pub open spec fn filename_occurrences(entries: Seq<(Seq<char>, LanguageDefinition)>) -> Occurrences
    decreases entries.len(),
{
    if entries.len() == 0 {
        Seq::empty()
    } else {
        filename_occurrences(entries.drop_last()) + keyed(
            entries.last().1.filenames@,
            entries.last().0,
        )
    }
}

/// The language of the first row of `t` whose key is `key`.
pub open spec fn table_get(t: Seq<(String, String)>, key: Seq<char>) -> Option<Seq<char>>
    decreases t.len(),
{
    if t.len() == 0 {
        None
    } else if t[0].0@ == key {
        Some(t[0].1@)
    } else {
        table_get(t.drop_first(), key)
    }
}

/// Definitions by name, and the tables that map lower-cased file names and
/// extensions to a language.
pub struct LanguageRegistry {
    definitions: IndexMap<String, LanguageDefinition>,
    extension_lookup: Vec<(String, String)>,
    filename_lookup: Vec<(String, String)>,
}

impl LanguageRegistry {
    /// The definitions, in order.
    pub closed spec fn entries(&self) -> Seq<(Seq<char>, LanguageDefinition)> {
        language_entries(self.definitions)
    }

    #[verifier::type_invariant]
    closed spec fn tables_follow_definitions(&self) -> bool {
        &&& forall|k: Seq<char>|
            #![trigger table_get(self.extension_lookup@, k)]
            table_get(self.extension_lookup@, k) == chosen(
                language_entries(self.definitions),
                extension_occurrences(language_entries(self.definitions)),
                k,
            )
        &&& forall|k: Seq<char>|
            #![trigger table_get(self.filename_lookup@, k)]
            table_get(self.filename_lookup@, k) == chosen(
                language_entries(self.definitions),
                filename_occurrences(language_entries(self.definitions)),
                k,
            )
    }
}

proof fn lemma_table_get_push(t: Seq<(String, String)>, x: (String, String), k: Seq<char>)
    ensures
        table_get(t.push(x), k) == match table_get(t, k) {
            Some(v) => Some(v),
            None => if x.0@ == k {
                Some(x.1@)
            } else {
                None
            },
        },
    decreases t.len(),
{
    if t.len() > 0 {
        assert(t.push(x).drop_first() =~= t.drop_first().push(x));
        lemma_table_get_push(t.drop_first(), x, k);
    } else {
        assert(t.push(x).drop_first() =~= t);
    }
}

proof fn lemma_table_get_update(t: Seq<(String, String)>, i: int, x: (String, String), k: Seq<char>)
    requires
        0 <= i < t.len(),
        t[i].0@ == x.0@,
        forall|j: int| 0 <= j < i ==> t[j].0@ != x.0@,
    ensures
        table_get(t.update(i, x), k) == if k == x.0@ {
            Some(x.1@)
        } else {
            table_get(t, k)
        },
    decreases i,
{
    if i > 0 {
        assert(t.update(i, x).drop_first() =~= t.drop_first().update(i - 1, x));
        lemma_table_get_update(t.drop_first(), i - 1, x, k);
    } else {
        assert(t.update(i, x).drop_first() =~= t.drop_first());
    }
}

/// Position of the first row whose key is `key`.
fn table_find(t: &Vec<(String, String)>, key: &Vec<char>) -> (r: Option<usize>)
    ensures
        match r {
            Some(i) => i < t.len() && t@[i as int].0@ == key@ && (forall|j: int|
                0 <= j < i ==> t@[j].0@ != key@) && table_get(t@, key@) == Some(t@[i as int].1@),
            None => table_get(t@, key@) is None,
        },
{
    let mut i: usize = 0;
    assert(t@.skip(0) =~= t@);
    while i < t.len()
        invariant
            i <= t.len(),
            forall|j: int| 0 <= j < i ==> t@[j].0@ != key@,
            table_get(t@, key@) == table_get(t@.skip(i as int), key@),
        decreases t.len() - i,
    {
        let row_key = to_chars(t[i].0.as_str());
        assert(t@.skip(i as int).drop_first() =~= t@.skip(i + 1));
        if chars_eq(&row_key, key) {
            return Some(i);
        }
        i = i + 1;
    }
    None
}

fn language_has_color(definitions: &IndexMap<String, LanguageDefinition>, name: &str) -> (r: bool)
    ensures
        r == has_color(language_entries(*definitions), name@),
{
    match definition_get(definitions, name) {
        Some(d) => d.color.is_some(),
        None => false,
    }
}

/// Inserts `candidate` under `key`: a new key takes it; an existing language
/// is replaced only when it has no color and `candidate` has one.
fn insert_language_mapping(
    lookup: &mut Vec<(String, String)>,
    definitions: &IndexMap<String, LanguageDefinition>,
    key: String,
    candidate: &str,
)
    ensures
        forall|k: Seq<char>|
            #![trigger table_get(final(lookup)@, k)]
            table_get(final(lookup)@, k) == if k == key@ {
                insert_step(language_entries(*definitions), table_get(old(lookup)@, k), candidate@)
            } else {
                table_get(old(lookup)@, k)
            },
{
    let key_chars = to_chars(key.as_str());
    match table_find(lookup, &key_chars) {
        None => {
            let ghost before = lookup@;
            let row = (key, candidate.to_owned());
            lookup.push(row);
            assert forall|k: Seq<char>| #![trigger table_get(lookup@, k)]
                table_get(lookup@, k) == if k == key_chars@ {
                    insert_step(language_entries(*definitions), table_get(before, k), candidate@)
                } else {
                    table_get(before, k)
                } by {
                lemma_table_get_push(before, row, k);
            }
        },
        Some(i) => {
            let existing_has_color = language_has_color(definitions, lookup[i].1.as_str());
            let candidate_has_color = language_has_color(definitions, candidate);
            if !existing_has_color && candidate_has_color {
                let ghost before = lookup@;
                let row = (key, candidate.to_owned());
                lookup.set(i, row);
                assert forall|k: Seq<char>| #![trigger table_get(lookup@, k)]
                    table_get(lookup@, k) == if k == key_chars@ {
                        insert_step(language_entries(*definitions), table_get(before, k), candidate@)
                    } else {
                        table_get(before, k)
                    } by {
                    lemma_table_get_update(before, i as int, row, k);
                }
            }
        },
    }
}

proof fn lemma_keyed_take(values: Seq<String>, language: Seq<char>, j: int)
    requires
        0 <= j < values.len(),
    ensures
        keyed(values.take(j + 1), language) == keyed(values.take(j), language).push(
            (lowercase(values[j]@), language),
        ),
{
    assert(keyed(values.take(j + 1), language) =~= keyed(values.take(j), language).push(
        (lowercase(values[j]@), language),
    ));
}

/// Builds a table from `values`, inserting `(lowercase(value), language)` for
/// each value in turn after the pairs already in `lookup`.
fn insert_all(
    lookup: &mut Vec<(String, String)>,
    definitions: &IndexMap<String, LanguageDefinition>,
    values: &Vec<String>,
    language: &str,
    Ghost(prior): Ghost<Occurrences>,
)
    requires
        forall|k: Seq<char>|
            #![trigger table_get(old(lookup)@, k)]
            table_get(old(lookup)@, k) == chosen(language_entries(*definitions), prior, k),
    ensures
        forall|k: Seq<char>|
            #![trigger table_get(final(lookup)@, k)]
            table_get(final(lookup)@, k) == chosen(
                language_entries(*definitions),
                prior + keyed(values@, language@),
                k,
            ),
{
    let ghost entries = language_entries(*definitions);
    let mut j: usize = 0;
    assert(prior + keyed(values@.take(0), language@) =~= prior);
    while j < values.len()
        invariant
            j <= values.len(),
            entries == language_entries(*definitions),
            forall|k: Seq<char>|
                #![trigger table_get(lookup@, k)]
                table_get(lookup@, k) == chosen(
                    entries,
                    prior + keyed(values@.take(j as int), language@),
                    k,
                ),
        decreases values.len() - j,
    {
        let key = to_lowercase(values[j].as_str());
        let ghost occ = prior + keyed(values@.take(j as int), language@);
        let ghost next = prior + keyed(values@.take(j + 1), language@);
        proof {
            lemma_keyed_take(values@, language@, j as int);
            assert(next =~= occ.push((key@, language@)));
            assert(next.drop_last() =~= occ);
        }
        insert_language_mapping(lookup, definitions, key, language);
        j = j + 1;
    }
    assert(values@.take(values.len() as int) =~= values@);
}

impl LanguageRegistry {
    /// Builds the file-name and extension tables from definitions in order;
    /// see `chosen` for which language a shared key keeps.
    pub fn from_definitions(definitions: IndexMap<String, LanguageDefinition>) -> (r: Self)
        ensures
            r.entries() == language_entries(definitions),
    {
        let ghost entries = language_entries(definitions);
        let n = definitions_len(&definitions);
        let mut extension_lookup: Vec<(String, String)> = Vec::new();
        let mut filename_lookup: Vec<(String, String)> = Vec::new();
        let mut i: usize = 0;
        assert(entries.take(0) =~= Seq::<(Seq<char>, LanguageDefinition)>::empty());
        while i < n
            invariant
                i <= n,
                n == entries.len(),
                entries == language_entries(definitions),
                forall|k: Seq<char>|
                    #![trigger table_get(extension_lookup@, k)]
                    table_get(extension_lookup@, k) == chosen(
                        entries,
                        extension_occurrences(entries.take(i as int)),
                        k,
                    ),
                forall|k: Seq<char>|
                    #![trigger table_get(filename_lookup@, k)]
                    table_get(filename_lookup@, k) == chosen(
                        entries,
                        filename_occurrences(entries.take(i as int)),
                        k,
                    ),
            decreases n - i,
        {
            match definition_at(&definitions, i) {
                Some((name, definition)) => {
                    proof {
                        assert(entries.take(i + 1).drop_last() =~= entries.take(i as int));
                        assert(entries.take(i + 1).last() == entries[i as int]);
                    }
                    insert_all(
                        &mut extension_lookup,
                        &definitions,
                        &definition.extensions,
                        name.as_str(),
                        Ghost(extension_occurrences(entries.take(i as int))),
                    );
                    insert_all(
                        &mut filename_lookup,
                        &definitions,
                        &definition.filenames,
                        name.as_str(),
                        Ghost(filename_occurrences(entries.take(i as int))),
                    );
                },
                None => {},
            }
            i = i + 1;
        }
        assert(entries.take(n as int) =~= entries);
        LanguageRegistry { definitions, extension_lookup, filename_lookup }
    }
}

/// The color of the definition named `name`, if it has one.
pub open spec fn color_of(entries: Seq<(Seq<char>, LanguageDefinition)>, name: Seq<char>) -> Option<Seq<char>> {
    match lookup_entry(entries, name) {
        Some(d) => match d.color {
            Some(c) => Some(c@),
            None => None,
        },
        None => None,
    }
}

/// The language of a path: its lower-cased file name in the file-name table,
/// else "." and its extension, lower-cased, in the extension table.
pub open spec fn path_language(entries: Seq<(Seq<char>, LanguageDefinition)>, path: Seq<char>) -> Option<Seq<char>> {
    let by_name = match file_name(path) {
        Some(n) => chosen(entries, filename_occurrences(entries), lowercase(n)),
        None => None,
    };
    if by_name is Some {
        by_name
    } else {
        match extension(path) {
            Some(e) => chosen(entries, extension_occurrences(entries), lowercase(seq!['.'] + e)),
            None => None,
        }
    }
}

/// The language that `key` selects in a table, as a new `String`.
fn table_lookup(t: &Vec<(String, String)>, key: &Vec<char>) -> (r: Option<String>)
    ensures
        table_get(t@, key@) == match r {
            Some(v) => Some(v@),
            None => None::<Seq<char>>,
        },
{
    match table_find(t, key) {
        Some(i) => Some(t[i].1.clone()),
        None => None,
    }
}

impl LanguageRegistry {
    pub fn color_for(&self, language: &str) -> (r: Option<&str>)
        ensures
            color_of(self.entries(), language@) == match r {
                Some(c) => Some(c@),
                None => None::<Seq<char>>,
            },
    {
        match definition_get(&self.definitions, language) {
            Some(d) => match &d.color {
                Some(c) => Some(c.as_str()),
                None => None,
            },
            None => None,
        }
    }

    pub fn color_or_fallback(&self, language: &str) -> (r: &str)
        ensures
            r@ == match color_of(self.entries(), language@) {
                Some(c) => c,
                None => FALLBACK_LANGUAGE_COLOR@,
            },
    {
        match self.color_for(language) {
            Some(c) => c,
            None => FALLBACK_LANGUAGE_COLOR,
        }
    }

    pub fn language_for_path(&self, path: &str) -> (r: Option<String>)
        ensures
            path_language(self.entries(), path@) == match r {
                Some(l) => Some(l@),
                None => None::<Seq<char>>,
            },
    {
        proof {
            use_type_invariant(self);
        }
        let chars = to_chars(path);
        match file_name_chars(&chars) {
            Some(name) => {
                let name_text = from_chars(&name);
                let key_text = to_lowercase(name_text.as_str());
                let key = to_chars(key_text.as_str());
                let found = table_lookup(&self.filename_lookup, &key);
                if found.is_some() {
                    return found;
                }
            },
            None => {},
        }
        match extension_chars(&chars) {
            Some(ext) => {
                let mut dotted = String::new();
                push_char(&mut dotted, '.');
                let ext_text = from_chars(&ext);
                dotted.append(ext_text.as_str());
                let key_text = to_lowercase(dotted.as_str());
                let key = to_chars(key_text.as_str());
                assert(dotted@ =~= seq!['.'] + ext@);
                table_lookup(&self.extension_lookup, &key)
            },
            None => None,
        }
    }
}

/// File names win over extensions: when the file-name table holds a language
/// for a path's lower-cased file name, that is the path's language, whatever
/// the extension table holds; only otherwise does the extension decide.
pub proof fn lemma_file_names_win(entries: Seq<(Seq<char>, LanguageDefinition)>, path: Seq<char>)
    ensures
        ({
            let by_extension = match extension(path) {
                Some(e) => chosen(entries, extension_occurrences(entries), lowercase(seq!['.'] + e)),
                None => None,
            };
            match file_name(path) {
                Some(n) => match chosen(entries, filename_occurrences(entries), lowercase(n)) {
                    Some(l) => path_language(entries, path) == Some(l),
                    None => path_language(entries, path) == by_extension,
                },
                None => path_language(entries, path) == by_extension,
            }
        }),
{
}

/// The earliest language of `occ` listed under `key` that has a color.
pub open spec fn first_colored(
    entries: Seq<(Seq<char>, LanguageDefinition)>,
    occ: Occurrences,
    key: Seq<char>,
) -> Option<Seq<char>>
    decreases occ.len(),
{
    if occ.len() == 0 {
        None
    } else {
        let p = first_colored(entries, occ.drop_last(), key);
        if p is Some {
            p
        } else if occ.last().0 == key && has_color(entries, occ.last().1) {
            Some(occ.last().1)
        } else {
            None
        }
    }
}

/// The earliest language of `occ` listed under `key`.
pub open spec fn first_listed(occ: Occurrences, key: Seq<char>) -> Option<Seq<char>>
    decreases occ.len(),
{
    if occ.len() == 0 {
        None
    } else {
        let p = first_listed(occ.drop_last(), key);
        if p is Some {
            p
        } else if occ.last().0 == key {
            Some(occ.last().1)
        } else {
            None
        }
    }
}

proof fn lemma_first_listed_uncolored(
    entries: Seq<(Seq<char>, LanguageDefinition)>,
    occ: Occurrences,
    key: Seq<char>,
)
    ensures
        first_colored(entries, occ, key) is None ==> match first_listed(occ, key) {
            Some(e) => !has_color(entries, e),
            None => true,
        },
        first_listed(occ, key) is None ==> first_colored(entries, occ, key) is None,
        first_colored(entries, occ, key) matches Some(c) ==> has_color(entries, c),
    decreases occ.len(),
{
    if occ.len() > 0 {
        lemma_first_listed_uncolored(entries, occ.drop_last(), key);
    }
}

/// A file name or extension listed by several languages goes to the earliest
/// of them that has a color, or to the earliest of them when none has one.
pub proof fn lemma_shared_key_prefers_colored(
    entries: Seq<(Seq<char>, LanguageDefinition)>,
    occ: Occurrences,
    key: Seq<char>,
)
    ensures
        chosen(entries, occ, key) == if first_colored(entries, occ, key) is Some {
            first_colored(entries, occ, key)
        } else {
            first_listed(occ, key)
        },
    decreases occ.len(),
{
    if occ.len() > 0 {
        lemma_shared_key_prefers_colored(entries, occ.drop_last(), key);
        lemma_first_listed_uncolored(entries, occ.drop_last(), key);
    }
}

} // verus!
