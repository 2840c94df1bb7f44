//! The term dictionary of a path: a finite-state transducer from each
//! normalized term to its term id, searched exactly, within an edit
//! distance, or by prefix within an edit distance.

use vstd::prelude::*;
use fst::Automaton;
use fst::IntoStreamer;
use crate::create::TermInfo;
use crate::text::chars_of;

verus! {

/// The map of the `fst` crate: byte-string keys in lexicographic order,
/// each with a `u64` value.
#[verifier::external_type_specification]
#[verifier::external_body]
#[verifier::reject_recursive_types(D)]
pub struct ExFstMap<D>(fst::Map<D>);

/// The terms that a dictionary holds, each with its value.
pub uninterp spec fn fst_terms(m: fst::Map<Vec<u8>>) -> Map<Seq<char>, u64>;

/// `a` comes strictly before `b` in the order of code points.
pub open spec fn lex_lt(a: Seq<char>, b: Seq<char>) -> bool
    decreases a.len(),
{
    if a.len() == 0 {
        b.len() > 0
    } else if b.len() == 0 {
        false
    } else if a[0] != b[0] {
        a[0] < b[0]
    } else {
        lex_lt(a.drop_first(), b.drop_first())
    }
}

/// Each term comes strictly before the next.
pub open spec fn strictly_sorted(t: Seq<Seq<char>>) -> bool {
    forall|i: int, j: int| 0 <= i < j < t.len() ==> lex_lt(t[i], t[j])
}

/// The map from each term to its position.
pub open spec fn index_map(t: Seq<Seq<char>>) -> Map<Seq<char>, u64> {
    Map::new(|k: Seq<char>| t.contains(k), |k: Seq<char>| (choose|i: int| 0 <= i < t.len() && t[i] == k) as u64)
}

/// The least number of single-character insertions, deletions and
/// substitutions that turn `a` into `b`.
pub open spec fn edit_distance(a: Seq<char>, b: Seq<char>) -> nat
    decreases a.len() + b.len(),
{
    if a.len() == 0 {
        b.len()
    } else if b.len() == 0 {
        a.len()
    } else {
        let sub = edit_distance(a.drop_last(), b.drop_last()) + if a.last() == b.last() { 0nat } else { 1nat };
        let del = edit_distance(a.drop_last(), b) + 1;
        let ins = edit_distance(a, b.drop_last()) + 1;
        if sub <= del && sub <= ins {
            sub
        } else if del <= ins {
            del
        } else {
            ins
        }
    }
}

/// Whether `fst::automaton::Levenshtein::new` builds the automaton for
/// query `q` and distance `d` within its state limit.
pub uninterp spec fn lev_builds(q: Seq<char>, d: nat) -> bool;

/// Every character is ASCII.
pub open spec fn ascii(s: Seq<char>) -> bool {
    forall|i: int| 0 <= i < s.len() ==> #[trigger] s[i] < '\u{80}'
}

/// A search for `q` within distance `d` finds every matching term: fst's
/// automaton keeps all paths apart where the distance is zero or the query
/// is ASCII. (For other queries, non-ASCII query characters that share a
/// first UTF-8 byte cut off each other's edges, and terms can be missed.)
pub open spec fn complete_search(q: Seq<char>, d: nat) -> bool {
    d == 0 || ascii(q)
}

/// A term dictionary: a finite-state transducer from UTF-8 terms to their
/// ids. Only [`build_dictionary`] makes one, so every key is a term given
/// as a `String` and the transducer is well formed.
pub struct TermDictionary {
    map: fst::Map<Vec<u8>>,
}

impl TermDictionary {
    /// The terms of the dictionary, each with its id.
    pub closed spec fn entries(&self) -> Map<Seq<char>, u64> {
        fst_terms(self.map)
    }
}

/// Relies on `fst::Map::from_iter`, which builds a map from keys given in
/// strictly increasing lexicographic order and fails on any other order;
/// the order of UTF-8 bytes is the order of code points.
#[verifier::external_body]
fn fst_from_terms(terms: &Vec<String>) -> (r: Option<fst::Map<Vec<u8>>>)
    ensures
        r is Some == strictly_sorted(terms@.map_values(|t: String| t@)),
        r matches Some(m) ==> fst_terms(m) == index_map(terms@.map_values(|t: String| t@)),
{
    fst::Map::from_iter(terms.iter().enumerate().map(|(i, t)| (t.as_bytes(), i as u64))).ok()
}

/// Relies on `fst::Map::get`: the value of `key`, if the map holds it. The
/// map was built by `fst::Map::from_iter`, so it is well formed.
#[verifier::external_body]
fn fst_get(d: &TermDictionary, key: &str) -> (r: Option<u64>)
    ensures
        r == if fst_terms(d.map).contains_key(key@) { Some(fst_terms(d.map)[key@]) } else { None::<u64> },
{
    d.map.get(key)
}

/// `k` is a term of `m` that a search asks for: within edit distance `d`
/// of `q`, or with `starts_with` beginning with such a text.
pub open spec fn term_matches(m: Map<Seq<char>, u64>, q: Seq<char>, d: nat, starts_with: bool, k: Seq<char>) -> bool {
    if starts_with {
        prefix_match(m, q, d, k)
    } else {
        lev_match(m, q, d, k)
    }
}

/// The terms of `m` within edit distance `d` of `q`.
pub open spec fn lev_match(m: Map<Seq<char>, u64>, q: Seq<char>, d: nat, k: Seq<char>) -> bool {
    m.contains_key(k) && edit_distance(k, q) <= d
}

/// The terms of `m` that start with something within edit distance `d` of
/// `q`.
pub open spec fn prefix_match(m: Map<Seq<char>, u64>, q: Seq<char>, d: nat, k: Seq<char>) -> bool {
    m.contains_key(k) && exists|n: int| 0 <= n <= k.len() && edit_distance(#[trigger] k.subrange(0, n), q) <= d
}

/// The terms of a search result, in order.
pub open spec fn result_terms(v: Seq<(String, u64)>) -> Seq<Seq<char>> {
    v.map_values(|e: (String, u64)| e.0@)
}

/// Relies on `fst::automaton::Levenshtein::new` and `fst::Map::search` with
/// `into_str_vec` (the stream is in lexicographic order): terms within `distance` edits of `query`, with their
/// values, all of them where the distance is zero or the query is ASCII;
/// `None` exactly where the automaton grows past its size limit (the keys
/// are UTF-8, so reading them back cannot fail).
#[verifier::external_body]
fn fst_search_levenshtein(d: &TermDictionary, query: &str, distance: u32) -> (r: Option<Vec<(String, u64)>>)
    ensures
        r is Some <==> lev_builds(query@, distance as nat),
        r matches Some(v) ==> strictly_sorted(result_terms(v@)),
        r matches Some(v) ==> forall|i: int| 0 <= i < v@.len() ==> lev_match(fst_terms(d.map), query@, distance as nat, #[trigger] v@[i].0@)
            && fst_terms(d.map)[v@[i].0@] == v@[i].1,
        r matches Some(v) ==> complete_search(query@, distance as nat) ==> forall|k: Seq<char>| #[trigger] lev_match(fst_terms(d.map), query@, distance as nat, k)
            ==> exists|i: int| 0 <= i < v@.len() && v@[i].0@ == k,
{
    let lev = fst::automaton::Levenshtein::new(query, distance).ok()?;
    d.map.search(lev).into_stream().into_str_vec().ok()
}

/// Relies on `fst::automaton::Levenshtein::new`, `Automaton::starts_with`
/// and `fst::Map::search` with `into_str_vec` (in lexicographic order):
/// terms that start with
/// something within `distance` edits of `query`, with their values, all of
/// them where the distance is zero or the query is ASCII; `None` exactly
/// where the automaton grows past its size limit.
#[verifier::external_body]
fn fst_search_prefix(d: &TermDictionary, query: &str, distance: u32) -> (r: Option<Vec<(String, u64)>>)
    ensures
        r is Some <==> lev_builds(query@, distance as nat),
        r matches Some(v) ==> strictly_sorted(result_terms(v@)),
        r matches Some(v) ==> forall|i: int| 0 <= i < v@.len() ==> prefix_match(fst_terms(d.map), query@, distance as nat, #[trigger] v@[i].0@)
            && fst_terms(d.map)[v@[i].0@] == v@[i].1,
        r matches Some(v) ==> complete_search(query@, distance as nat) ==> forall|k: Seq<char>| #[trigger] prefix_match(fst_terms(d.map), query@, distance as nat, k)
            ==> exists|i: int| 0 <= i < v@.len() && v@[i].0@ == k,
{
    let lev = fst::automaton::Levenshtein::new(query, distance).ok()?;
    d.map.search(lev.starts_with()).into_stream().into_str_vec().ok()
}

/// The views of a list of strings.
pub open spec fn term_views(t: Seq<String>) -> Seq<Seq<char>> {
    t.map_values(|s: String| s@)
}

/// The dictionary of the given terms, each with its position as term id;
/// built exactly when the terms are in strictly increasing order.
pub fn build_dictionary(sorted_terms: &Vec<String>) -> (r: Option<TermDictionary>)
    ensures
        r is Some == strictly_sorted(term_views(sorted_terms@)),
        r matches Some(d) ==> d.entries() == index_map(term_views(sorted_terms@)),
{
    match fst_from_terms(sorted_terms) {
        Some(map) => Some(TermDictionary { map }),
        None => None,
    }
}

/// The term id of `term`, if the dictionary holds it.
pub fn exact_search(d: &TermDictionary, term: &str) -> (r: Option<u64>)
    ensures
        r == if d.entries().contains_key(term@) { Some(d.entries()[term@]) } else { None::<u64> },
{
    fst_get(d, term)
}

/// The terms of the dictionary within `distance` edits of `term`, or, with
/// `starts_with`, the terms that start with something within `distance`
/// edits of `term`; each with its term id, in increasing order, each
/// once. Every such term is found where
/// the distance is zero or the query is ASCII. `None` exactly where the
/// automaton for the query cannot be built.
pub fn search_terms(d: &TermDictionary, term: &str, distance: u32, starts_with: bool) -> (r: Option<Vec<(String, u64)>>)
    ensures
        r is Some <==> lev_builds(term@, distance as nat),
        r matches Some(v) ==> strictly_sorted(result_terms(v@)),
        r matches Some(v) ==> forall|i: int| 0 <= i < v@.len() ==> d.entries()[#[trigger] v@[i].0@] == v@[i].1
            && term_matches(d.entries(), term@, distance as nat, starts_with, v@[i].0@),
        r matches Some(v) ==> complete_search(term@, distance as nat) ==> forall|k: Seq<char>| #[trigger] term_matches(d.entries(), term@, distance as nat, starts_with, k)
            ==> exists|i: int| 0 <= i < v@.len() && #[trigger] v@[i].0@ == k,
{
    if starts_with {
        let r = fst_search_prefix(d, term, distance);
        proof {
            if r is Some && complete_search(term@, distance as nat) {
                let v = r->Some_0;
                assert forall|k: Seq<char>| #[trigger] term_matches(d.entries(), term@, distance as nat, starts_with, k)
                    implies exists|i: int| 0 <= i < v@.len() && #[trigger] v@[i].0@ == k by {
                    assert(prefix_match(fst_terms(d.map), term@, distance as nat, k));
                }
            }
        }
        r
    } else {
        let r = fst_search_levenshtein(d, term, distance);
        proof {
            if r is Some && complete_search(term@, distance as nat) {
                let v = r->Some_0;
                assert forall|k: Seq<char>| #[trigger] term_matches(d.entries(), term@, distance as nat, starts_with, k)
                    implies exists|i: int| 0 <= i < v@.len() && #[trigger] v@[i].0@ == k by {
                    assert(lev_match(fst_terms(d.map), term@, distance as nat, k));
                }
            }
        }
        r
    }
}

/// A string at edit distance zero from another is that string.
pub proof fn lemma_edit_distance_zero(a: Seq<char>, b: Seq<char>)
    ensures
        edit_distance(a, b) == 0 <==> a == b,
    decreases a.len() + b.len(),
{
    if a.len() > 0 && b.len() > 0 {
        lemma_edit_distance_zero(a.drop_last(), b.drop_last());
        if a == b {
            assert(a.drop_last() == b.drop_last());
        }
        if edit_distance(a, b) == 0 {
            assert(a =~= a.drop_last().push(a.last()));
            assert(b =~= b.drop_last().push(b.last()));
        }
    } else if a.len() == 0 && b.len() > 0 {
        assert(edit_distance(a, b) == b.len());
    } else if a.len() > 0 && b.len() == 0 {
        assert(edit_distance(a, b) == a.len());
    } else {
        assert(a =~= b);
    }
}

/// The term ids of a dictionary built from sorted terms: each term maps to
/// its position, and a search within edit distance zero for a term finds
/// that term and no other.
pub proof fn lemma_dictionary_round_trip(terms: Seq<Seq<char>>, m: Map<Seq<char>, u64>, i: int)
    requires
        strictly_sorted(terms),
        m == index_map(terms),
        0 <= i < terms.len(),
    ensures
        m.contains_key(terms[i]),
        m[terms[i]] == i as u64,
        forall|k: Seq<char>| #[trigger] lev_match(m, terms[i], 0, k) <==> k == terms[i],
{
    assert(terms.contains(terms[i]));
    let j = choose|j: int| 0 <= j < terms.len() && terms[j] == terms[i];
    if j != i {
        lemma_lex_lt_irreflexive(terms[i]);
        if j < i {
            assert(lex_lt(terms[j], terms[i]));
        } else {
            assert(lex_lt(terms[i], terms[j]));
        }
    }
    assert forall|k: Seq<char>| #[trigger] lev_match(m, terms[i], 0, k) <==> k == terms[i] by {
        lemma_edit_distance_zero(k, terms[i]);
    }
}

/// A search within distance zero for a term of a dictionary built from
/// sorted terms finds that term alone, once, with its id, wherever the
/// automaton builds: a result that holds only matching terms, all of them,
/// in increasing order, is exactly that term.
pub proof fn lemma_zero_distance_search(terms: Seq<Seq<char>>, m: Map<Seq<char>, u64>, i: int, v: Seq<(String, u64)>)
    requires
        strictly_sorted(terms),
        m == index_map(terms),
        0 <= i < terms.len(),
        strictly_sorted(result_terms(v)),
        forall|j: int| 0 <= j < v.len() ==> m[#[trigger] v[j].0@] == v[j].1 && lev_match(m, terms[i], 0, v[j].0@),
        forall|k: Seq<char>| #[trigger] lev_match(m, terms[i], 0, k) ==> exists|j: int| 0 <= j < v.len() && v[j].0@ == k,
    ensures
        v.len() == 1,
        v[0].0@ == terms[i],
        v[0].1 == i as u64,
{
    lemma_dictionary_round_trip(terms, m, i);
    assert(lev_match(m, terms[i], 0, terms[i]));
    let j0 = choose|j: int| 0 <= j < v.len() && v[j].0@ == terms[i];
    assert forall|j: int| 0 <= j < v.len() implies v[j].0@ == terms[i] by {
        assert(lev_match(m, terms[i], 0, v[j].0@));
    }
    if v.len() > 1 {
        assert(result_terms(v)[0] == terms[i]);
        assert(result_terms(v)[1] == terms[i]);
        assert(lex_lt(result_terms(v)[0], result_terms(v)[1]));
        lemma_lex_lt_irreflexive(terms[i]);
    }
}

/// No string comes strictly before itself.
pub proof fn lemma_lex_lt_irreflexive(a: Seq<char>)
    ensures
        !lex_lt(a, a),
    decreases a.len(),
{
    if a.len() > 0 {
        lemma_lex_lt_irreflexive(a.drop_first());
    }
}

/// Gives each term its id: the number of terms of the table that come
/// before it. Terms and counts stay as they are.
pub fn set_ids(terms: &mut Vec<(String, TermInfo)>)
    requires
        old(terms)@.len() <= u32::MAX,
    ensures
        final(terms)@.len() == old(terms)@.len(),
        forall|i: int| 0 <= i < final(terms)@.len() ==> {
            &&& (#[trigger] final(terms)@[i]).0@ == old(terms)@[i].0@
            &&& final(terms)@[i].1.num_occurences == old(terms)@[i].1.num_occurences
            &&& final(terms)@[i].1.id as int == rank(term_keys(old(terms)@), old(terms)@[i].0@, old(terms)@.len() as int)
        },
{
    let n = terms.len();
    let ghost keys = term_keys(terms@);
    assert(keys.len() == n);
    let mut chars: Vec<Vec<char>> = Vec::new();
    let mut k: usize = 0;
    while k < n
        invariant
            n == terms@.len(),
            keys == term_keys(terms@),
            k <= n,
            chars@.len() == k,
            forall|j: int| 0 <= j < k ==> #[trigger] chars@[j]@ == keys[j],
        decreases n - k,
    {
        chars.push(chars_of(terms[k].0.as_str()));
        k = k + 1;
    }
    let ghost orig = terms@;
    let mut i: usize = 0;
    while i < n
        invariant
            n == terms@.len(),
            n == orig.len(),
            keys == term_keys(orig),
            chars@.len() == n,
            forall|j: int| 0 <= j < n ==> #[trigger] chars@[j]@ == keys[j],
            n <= u32::MAX,
            i <= n,
            forall|j: int| 0 <= j < n ==> (#[trigger] terms@[j]).0 == orig[j].0 && terms@[j].1.num_occurences == orig[j].1.num_occurences,
            forall|j: int| 0 <= j < i ==> (#[trigger] terms@[j]).1.id as int == rank(keys, keys[j], n as int),
        decreases n - i,
    {
        let mut count: u32 = 0;
        let mut j: usize = 0;
        while j < n
            invariant
                n == orig.len(),
                keys == term_keys(orig),
                chars@.len() == n,
                forall|t: int| 0 <= t < n ==> #[trigger] chars@[t]@ == keys[t],
                i < n,
                j <= n,
                count as int == rank(keys, keys[i as int], j as int),
                count <= j,
                n <= u32::MAX,
            decreases n - j,
        {
            if chars_lt(&chars[j], &chars[i]) {
                count = count + 1;
            }
            j = j + 1;
        }
        let id = count;
        let old_entry = &terms[i];
        let entry = (old_entry.0.clone(), TermInfo { id, num_occurences: old_entry.1.num_occurences });
        terms.set(i, entry);
        i = i + 1;
    }
}

/// The keys of a term table.
pub open spec fn term_keys(t: Seq<(String, TermInfo)>) -> Seq<Seq<char>> {
    t.map_values(|e: (String, TermInfo)| e.0@)
}

/// The number of the first `n` keys that come strictly before `k`.
pub open spec fn rank(keys: Seq<Seq<char>>, k: Seq<char>, n: int) -> nat
    decreases n,
{
    if n <= 0 {
        0
    } else {
        rank(keys, k, n - 1) + if lex_lt(keys[n - 1], k) { 1nat } else { 0nat }
    }
}

/// Whether `a` comes strictly before `b`.
pub fn chars_lt(a: &Vec<char>, b: &Vec<char>) -> (r: bool)
    ensures
        r == lex_lt(a@, b@),
{
    proof {
        assert(a@.subrange(0, a@.len() as int) =~= a@);
        assert(b@.subrange(0, b@.len() as int) =~= b@);
    }
    let mut i: usize = 0;
    while i < a.len() && i < b.len() && a[i] == b[i]
        invariant
            i <= a@.len(),
            i <= b@.len(),
            lex_lt(a@, b@) == lex_lt(a@.subrange(i as int, a@.len() as int), b@.subrange(i as int, b@.len() as int)),
        decreases a@.len() - i,
    {
        proof {
            let sa = a@.subrange(i as int, a@.len() as int);
            let sb = b@.subrange(i as int, b@.len() as int);
            assert(sa.drop_first() =~= a@.subrange(i + 1, a@.len() as int));
            assert(sb.drop_first() =~= b@.subrange(i + 1, b@.len() as int));
        }
        i = i + 1;
    }
    if i == a.len() {
        i < b.len()
    } else if i == b.len() {
        false
    } else {
        a[i] < b[i]
    }
}

/// The byte offset at which term `n` starts when the terms are written one
/// per line.
pub open spec fn line_offset(t: Seq<Seq<char>>, n: int) -> nat
    decreases n,
{
    if n <= 0 {
        0
    } else {
        line_offset(t, n - 1) + vstd::utf8::encode_utf8(t[n - 1]).len() + 1
    }
}

/// The byte offset of each term in the terms written one per line, then
/// the length of the whole text.
pub fn get_string_offsets(data: &Vec<String>) -> (r: Vec<u64>)
    requires
        line_offset(term_views(data@), data@.len() as int) <= u64::MAX,
    ensures
        r@.len() == data@.len() + 1,
        forall|i: int| 0 <= i <= data@.len() ==> #[trigger] r@[i] == line_offset(term_views(data@), i),
{
    let ghost t = term_views(data@);
    let mut offsets: Vec<u64> = Vec::new();
    let mut offset: u64 = 0;
    let mut i: usize = 0;
    while i < data.len()
        invariant
            t == term_views(data@),
            line_offset(t, data@.len() as int) <= u64::MAX,
            i <= data@.len(),
            offsets@.len() == i,
            offset == line_offset(t, i as int),
            forall|k: int| 0 <= k < i ==> #[trigger] offsets@[k] == line_offset(t, k),
        decreases data@.len() - i,
    {
        proof {
            lemma_line_offset_monotone(t, i + 1, data@.len() as int);
        }
        offsets.push(offset);
        let text = data[i].as_str();
        let bytes = text.as_bytes();
        let len = bytes.len();
        assert(t[i as int] == data@[i as int]@);
        assert(text@ == data@[i as int]@);
        assert(len == vstd::utf8::encode_utf8(t[i as int]).len());
        offset = offset + len as u64 + 1;
        i = i + 1;
    }
    offsets.push(offset);
    offsets
}

proof fn lemma_line_offset_monotone(t: Seq<Seq<char>>, a: int, b: int)
    requires
        0 <= a <= b,
    ensures
        line_offset(t, a) <= line_offset(t, b),
    decreases b - a,
{
    if a < b {
        lemma_line_offset_monotone(t, a, b - 1);
    }
}

/// The code-point order is transitive.
pub proof fn lemma_lex_lt_transitive(a: Seq<char>, b: Seq<char>, c: Seq<char>)
    requires
        lex_lt(a, b),
        lex_lt(b, c),
    ensures
        lex_lt(a, c),
    decreases a.len(),
{
    if a.len() > 0 && b.len() > 0 && c.len() > 0 && a[0] == b[0] && b[0] == c[0] {
        lemma_lex_lt_transitive(a.drop_first(), b.drop_first(), c.drop_first());
    }
}

/// Of two different strings, one comes before the other.
pub proof fn lemma_lex_lt_total(a: Seq<char>, b: Seq<char>)
    requires
        a != b,
    ensures
        lex_lt(a, b) || lex_lt(b, a),
    decreases a.len(),
{
    if a.len() > 0 && b.len() > 0 {
        if a[0] == b[0] {
            if a.drop_first() == b.drop_first() {
                assert(a =~= seq![a[0]] + a.drop_first());
                assert(b =~= seq![b[0]] + b.drop_first());
            }
            lemma_lex_lt_total(a.drop_first(), b.drop_first());
        } else {
            assert((a[0] as int) != (b[0] as int));
        }
    } else if a.len() == 0 && b.len() == 0 {
        assert(a =~= b);
    }
}

/// The views of a list of character lists.
pub open spec fn char_views(v: Seq<Vec<char>>) -> Seq<Seq<char>> {
    v.map_values(|x: Vec<char>| x@)
}

/// Sorts distinct terms into strictly increasing code-point order.
pub fn sort_terms(terms: &Vec<Vec<char>>) -> (r: Vec<Vec<char>>)
    requires
        forall|i: int, j: int| 0 <= i < j < terms@.len() ==> terms@[i]@ != terms@[j]@,
    ensures
        r@.len() == terms@.len(),
        strictly_sorted(char_views(r@)),
        forall|t: Seq<char>| #[trigger] char_views(r@).contains(t) <==> char_views(terms@).contains(t),
{
    let ghost tv = char_views(terms@);
    let mut out: Vec<Vec<char>> = Vec::new();
    let mut i: usize = 0;
    while i < terms.len()
        invariant
            tv == char_views(terms@),
            forall|a: int, b: int| 0 <= a < b < terms@.len() ==> terms@[a]@ != terms@[b]@,
            i <= terms@.len(),
            out@.len() == i,
            strictly_sorted(char_views(out@)),
            forall|t: Seq<char>| #[trigger] char_views(out@).contains(t) <==> tv.subrange(0, i as int).contains(t),
        decreases terms@.len() - i,
    {
        let x = crate::text::copy_chars(&terms[i]);
        let ghost ov = char_views(out@);
        proof {
            assert(tv[i as int] == x@);
            if ov.contains(x@) {
                let k = choose|k: int| 0 <= k < i && #[trigger] tv.subrange(0, i as int)[k] == x@;
                assert(tv[k] == terms@[k]@);
                assert(false);
            }
        }
        let mut pos: usize = out.len();
        while pos > 0 && chars_lt(&x, &out[pos - 1])
            invariant
                pos <= out@.len(),
                ov == char_views(out@),
                forall|k: int| pos <= k < out@.len() ==> lex_lt(x@, #[trigger] ov[k]),
            decreases pos,
        {
            pos = pos - 1;
        }
        proof {
            if pos > 0 {
                assert(ov[pos - 1] != x@) by {
                    assert(ov.contains(ov[pos - 1]));
                }
                lemma_lex_lt_total(ov[pos - 1], x@);
            }
        }
        out.insert(pos, x);
        proof {
            let nv = char_views(out@);
            assert(nv =~= ov.insert(pos as int, x@));
            assert forall|a: int, b: int| 0 <= a < b < nv.len() implies lex_lt(nv[a], nv[b]) by {
                if b < pos {
                    assert(nv[a] == ov[a] && nv[b] == ov[b]);
                } else if b == pos {
                    assert(nv[a] == ov[a]);
                    if a < pos - 1 {
                        lemma_lex_lt_transitive(ov[a], ov[pos - 1], x@);
                    }
                } else if a == pos {
                    assert(nv[b] == ov[b - 1]);
                } else if a < pos {
                    assert(nv[a] == ov[a] && nv[b] == ov[b - 1]);
                    if a < pos - 1 {
                        lemma_lex_lt_transitive(ov[a], ov[pos - 1], x@);
                    }
                    lemma_lex_lt_transitive(ov[a], x@, ov[b - 1]);
                } else {
                    assert(nv[a] == ov[a - 1] && nv[b] == ov[b - 1]);
                }
            }
            assert(tv.subrange(0, i + 1) =~= tv.subrange(0, i as int).push(x@));
            assert forall|t: Seq<char>| #[trigger] nv.contains(t) <==> tv.subrange(0, i + 1).contains(t) by {
                if nv.contains(t) {
                    let k = choose|k: int| 0 <= k < nv.len() && #[trigger] nv[k] == t;
                    if k < pos {
                        assert(ov[k] == t);
                        assert(ov.contains(t));
                    } else if k > pos {
                        assert(ov[k - 1] == t);
                        assert(ov.contains(t));
                    }
                    assert(tv.subrange(0, i as int).contains(t) || t == x@);
                    if t == x@ {
                        assert(tv.subrange(0, i + 1)[i as int] == t);
                    } else {
                        let m = choose|m: int| 0 <= m < i && #[trigger] tv.subrange(0, i as int)[m] == t;
                        assert(tv.subrange(0, i + 1)[m] == t);
                    }
                }
                if tv.subrange(0, i + 1).contains(t) {
                    let m = choose|m: int| 0 <= m < i + 1 && #[trigger] tv.subrange(0, i + 1)[m] == t;
                    if m == i {
                        assert(nv[pos as int] == t);
                    } else {
                        assert(tv.subrange(0, i as int)[m] == t);
                        assert(ov.contains(t));
                        let k = choose|k: int| 0 <= k < ov.len() && #[trigger] ov[k] == t;
                        if k < pos {
                            assert(nv[k] == t);
                        } else {
                            assert(nv[k + 1] == t);
                        }
                    }
                }
            }
        }
        i = i + 1;
    }
    assert(tv.subrange(0, terms@.len() as int) =~= tv);
    out
}

} // verus!
