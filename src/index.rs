//! Building the full-text index of a path: the term table, the edges from
//! terms to the text values, from tokens to the values that contain them,
//! and from the elements of each level to their parents.

use vstd::prelude::*;
use crate::create::{boost_tuples, edge_tuples, BoostIndexOptions, FulltextIndexOptions, TermInfo, ValIdPair, ValIdToValue};
use crate::dictionary::{char_views, exact_search, sort_terms, strictly_sorted, TermDictionary};
use crate::normalize::{normalize_text, normalized};
use crate::text::{chars_eq, chars_of, copy_chars, string_of};
use crate::walk::{levels_view, texts_view, walk_of, walk_path, JsonValue};

verus! {

/// The pieces of `s` between single spaces, from a piece that starts at
/// `start`, scanned from `i` on.
pub open spec fn pieces_from(s: Seq<char>, start: int, i: int) -> Seq<Seq<char>>
    decreases s.len() - i,
{
    if i >= s.len() || i < start || start < 0 {
        seq![s.subrange(start, s.len() as int)]
    } else if s[i] == ' ' {
        seq![s.subrange(start, i)] + pieces_from(s, i + 1, i + 1)
    } else {
        pieces_from(s, start, i + 1)
    }
}

/// The tokens of a normalized value: its pieces between single spaces.
pub open spec fn tokens_of(s: Seq<char>) -> Seq<Seq<char>> {
    pieces_from(s, 0, 0)
}

/// `t` is one of the stopwords.
pub open spec fn is_stop(sw: Seq<Seq<char>>, t: Seq<char>) -> bool {
    sw.contains(t)
}

/// The first `n` tokens that are no stopwords.
pub open spec fn kept_tokens(ts: Seq<Seq<char>>, sw: Seq<Seq<char>>, n: int) -> Seq<Seq<char>>
    decreases n,
{
    if n <= 0 {
        seq![]
    } else if is_stop(sw, ts[n - 1]) {
        kept_tokens(ts, sw, n - 1)
    } else {
        kept_tokens(ts, sw, n - 1).push(ts[n - 1])
    }
}

/// The tokens that a normalized value adds: with `tokenize` on and at
/// least two tokens, those that are no stopwords.
pub open spec fn value_tokens(v: Seq<char>, tokenize: bool, sw: Seq<Seq<char>>) -> Seq<Seq<char>> {
    if tokenize && tokens_of(v).len() > 1 {
        kept_tokens(tokens_of(v), sw, tokens_of(v).len() as int)
    } else {
        seq![]
    }
}

/// The terms that a normalized value adds: nothing for a stopword, else
/// the value and its tokens.
pub open spec fn value_terms(v: Seq<char>, tokenize: bool, sw: Seq<Seq<char>>) -> Seq<Seq<char>> {
    if is_stop(sw, v) {
        seq![]
    } else {
        seq![v] + value_tokens(v, tokenize, sw)
    }
}

/// The terms of the first `n` text values, in order, repeated as they
/// occur.
pub open spec fn emitted(texts: Seq<(Seq<char>, u32)>, tokenize: bool, sw: Seq<Seq<char>>, n: int) -> Seq<Seq<char>>
    decreases n,
{
    if n <= 0 {
        seq![]
    } else {
        emitted(texts, tokenize, sw, n - 1) + value_terms(normalized(texts[n - 1].0), tokenize, sw)
    }
}

/// How often `t` occurs in `s`.
pub open spec fn occurrences(s: Seq<Seq<char>>, t: Seq<char>) -> nat
    decreases s.len(),
{
    if s.len() == 0 {
        0
    } else {
        occurrences(s.drop_last(), t) + if s.last() == t { 1nat } else { 0nat }
    }
}

/// The position of `t` among the sorted terms.
pub open spec fn id_of(sorted: Seq<Seq<char>>, t: Seq<char>) -> u32 {
    (choose|i: int| 0 <= i < sorted.len() && sorted[i] == t) as u32
}

/// The edges from the term of each of the first `n` text values that is
/// no stopword to the value's id.
pub open spec fn text_edges(texts: Seq<(Seq<char>, u32)>, sw: Seq<Seq<char>>, sorted: Seq<Seq<char>>, n: int) -> Seq<(u32, u32)>
    decreases n,
{
    if n <= 0 {
        seq![]
    } else if is_stop(sw, normalized(texts[n - 1].0)) {
        text_edges(texts, sw, sorted, n - 1)
    } else {
        text_edges(texts, sw, sorted, n - 1).push((id_of(sorted, normalized(texts[n - 1].0)), texts[n - 1].1))
    }
}

/// The edges from each token of `v` to the term of `v`.
pub open spec fn token_edges_of(v: Seq<char>, tokenize: bool, sw: Seq<Seq<char>>, sorted: Seq<Seq<char>>) -> Seq<(u32, u32)> {
    if is_stop(sw, v) {
        seq![]
    } else {
        value_tokens(v, tokenize, sw).map_values(|t: Seq<char>| (id_of(sorted, t), id_of(sorted, v)))
    }
}

/// The token edges of the first `n` text values.
pub open spec fn token_edges(texts: Seq<(Seq<char>, u32)>, tokenize: bool, sw: Seq<Seq<char>>, sorted: Seq<Seq<char>>, n: int) -> Seq<(u32, u32)>
    decreases n,
{
    if n <= 0 {
        seq![]
    } else {
        token_edges(texts, tokenize, sw, sorted, n - 1) + token_edges_of(normalized(texts[n - 1].0), tokenize, sw, sorted)
    }
}

/// The edges from each element of a level to its parent.
pub open spec fn level_edges(parents: Seq<u32>) -> Seq<(u32, u32)> {
    Seq::new(parents.len(), |i: int| (i as u32, parents[i]))
}

/// The stopwords of the options.
pub open spec fn stopwords_of(o: FulltextIndexOptions) -> Seq<Seq<char>> {
    match o.stopwords {
        Some(v) => v@.map_values(|s: String| s@),
        None => seq![],
    }
}

/// Why an index could not be built.
#[derive(PartialEq, Eq, Structural, Clone, Copy, Debug)]
pub enum IndexBuildError {
    /// The path has as many term occurrences as a `u32` counts, or more.
    TooManyTerms,
    /// The boost value at this position of the walk is no `u32`.
    NotAnInteger(u32),
}

/// The full-text index of a path.
pub struct FulltextIndex {
    /// The distinct terms in increasing order, each with its position as
    /// id and its number of occurrences.
    pub terms: Vec<(String, TermInfo)>,
    /// From the term of each text value to the value's id.
    pub text_edges: Vec<ValIdPair>,
    /// From each token of a value to the term of the value.
    pub token_edges: Vec<ValIdPair>,
    /// For each level opened by an array marker, from each element to its
    /// parent.
    pub level_edges: Vec<Vec<ValIdPair>>,
}

/// The terms of a term table.
pub open spec fn table_terms(t: Seq<(String, TermInfo)>) -> Seq<Seq<char>> {
    t.map_values(|e: (String, TermInfo)| e.0@)
}

proof fn lemma_occurrences_push(s: Seq<Seq<char>>, x: Seq<char>, t: Seq<char>)
    ensures
        occurrences(s.push(x), t) == occurrences(s, t) + if x == t { 1nat } else { 0nat },
{
    assert(s.push(x).drop_last() =~= s);
}

proof fn lemma_occurrences_bound(s: Seq<Seq<char>>, t: Seq<char>)
    ensures
        occurrences(s, t) <= s.len(),
        s.contains(t) ==> occurrences(s, t) > 0,
    decreases s.len(),
{
    if s.len() > 0 {
        lemma_occurrences_bound(s.drop_last(), t);
        if s.contains(t) && s.last() != t {
            let k = choose|k: int| 0 <= k < s.len() && s[k] == t;
            assert(s.drop_last()[k] == t);
        }
    }
}

/// The position of `t` in `list`, if it is there.
fn position_of(list: &Vec<Vec<char>>, t: &Vec<char>) -> (r: Option<usize>)
    ensures
        match r {
            Some(k) => k < list@.len() && list@[k as int]@ == t@,
            None => !char_views(list@).contains(t@),
        },
{
    let mut k: usize = 0;
    while k < list.len()
        invariant
            k <= list@.len(),
            forall|j: int| 0 <= j < k ==> list@[j]@ != t@,
        decreases list@.len() - k,
    {
        if chars_eq(&list[k], t) {
            return Some(k);
        }
        k = k + 1;
    }
    proof {
        if char_views(list@).contains(t@) {
            let j = choose|j: int| 0 <= j < list@.len() && #[trigger] char_views(list@)[j] == t@;
            assert(list@[j]@ == t@);
        }
    }
    None
}

/// The pieces of `s` between single spaces.
fn split_spaces(s: &Vec<char>) -> (r: Vec<Vec<char>>)
    ensures
        char_views(r@) == tokens_of(s@),
{
    let mut pieces: Vec<Vec<char>> = Vec::new();
    let mut cur: Vec<char> = Vec::new();
    let mut start: usize = 0;
    let mut i: usize = 0;
    while i < s.len()
        invariant
            start <= i <= s@.len(),
            cur@ == s@.subrange(start as int, i as int),
            char_views(pieces@) + pieces_from(s@, start as int, i as int) == tokens_of(s@),
        decreases s@.len() - i,
    {
        if s[i] == ' ' {
            let ghost before = char_views(pieces@);
            let ghost piece = cur@;
            proof {
                assert(pieces_from(s@, start as int, i as int) == seq![piece] + pieces_from(s@, i + 1, i + 1));
            }
            pieces.push(cur);
            cur = Vec::new();
            proof {
                assert(char_views(pieces@) =~= before.push(piece));
                assert(before.push(piece) + pieces_from(s@, i + 1, i + 1) =~= before + (seq![piece] + pieces_from(s@, i + 1, i + 1)));
                assert(cur@ =~= s@.subrange(i + 1, i + 1));
            }
            start = i + 1;
        } else {
            proof {
                assert(pieces_from(s@, start as int, i as int) == pieces_from(s@, start as int, i + 1));
            }
            cur.push(s[i]);
            assert(cur@ =~= s@.subrange(start as int, i + 1));
        }
        i = i + 1;
    }
    let ghost before = char_views(pieces@);
    let ghost piece = cur@;
    pieces.push(cur);
    proof {
        assert(pieces_from(s@, start as int, i as int) == seq![piece]);
        assert(char_views(pieces@) =~= before.push(piece));
    }
    pieces
}

/// The tokens of a value that are no stopwords, where the value is
/// tokenized.
fn tokens_kept(v: &Vec<char>, tokenize: bool, sw: &Vec<Vec<char>>) -> (r: Vec<Vec<char>>)
    ensures
        char_views(r@) == value_tokens(v@, tokenize, char_views(sw@)),
{
    let mut out: Vec<Vec<char>> = Vec::new();
    if !tokenize {
        return out;
    }
    let ts = split_spaces(v);
    if ts.len() <= 1 {
        return out;
    }
    let ghost tv = char_views(ts@);
    let mut k: usize = 0;
    while k < ts.len()
        invariant
            tv == char_views(ts@),
            tv == tokens_of(v@),
            k <= ts@.len(),
            char_views(out@) == kept_tokens(tv, char_views(sw@), k as int),
        decreases ts@.len() - k,
    {
        assert(tv[k as int] == ts@[k as int]@);
        match position_of(sw, &ts[k]) {
            None => {
                let ghost before = char_views(out@);
                out.push(copy_chars(&ts[k]));
                assert(char_views(out@) =~= before.push(tv[k as int]));
            },
            Some(j) => {
                assert(char_views(sw@)[j as int] == tv[k as int]);
            },
        }
        k = k + 1;
    }
    out
}

/// No term stands twice in `keys`.
pub open spec fn distinct(keys: Seq<Seq<char>>) -> bool {
    forall|i: int, j: int| 0 <= i < j < keys.len() ==> keys[i] != keys[j]
}

/// A term table with its counts over the terms `seen`.
pub open spec fn table_of(keys: Seq<Seq<char>>, counts: Seq<u32>, seen: Seq<Seq<char>>) -> bool {
    &&& keys.len() == counts.len()
    &&& distinct(keys)
    &&& forall|t: Seq<char>| #[trigger] keys.contains(t) <==> seen.contains(t)
    &&& forall|k: int| 0 <= k < keys.len() ==> #[trigger] counts[k] == occurrences(seen, keys[k])
}

/// Counts one more occurrence of `t`.
fn add_term(keys: &mut Vec<Vec<char>>, counts: &mut Vec<u32>, t: &Vec<char>, Ghost(seen): Ghost<Seq<Seq<char>>>)
    requires
        table_of(char_views(old(keys)@), old(counts)@, seen),
        seen.len() < u32::MAX,
    ensures
        table_of(char_views(final(keys)@), final(counts)@, seen.push(t@)),
        final(keys)@.len() <= old(keys)@.len() + 1,
{
    let ghost kv = char_views(keys@);
    proof {
        assert forall|u: Seq<char>| #[trigger] occurrences(seen.push(t@), u) == occurrences(seen, u) + if t@ == u { 1nat } else { 0nat } by {
            lemma_occurrences_push(seen, t@, u);
        }
        assert forall|u: Seq<char>| #[trigger] seen.push(t@).contains(u) <==> (seen.contains(u) || u == t@) by {
            if seen.push(t@).contains(u) && u != t@ {
                let k = choose|k: int| 0 <= k < seen.len() + 1 && #[trigger] seen.push(t@)[k] == u;
                assert(seen[k] == u);
            }
            if seen.contains(u) {
                let k = choose|k: int| 0 <= k < seen.len() && #[trigger] seen[k] == u;
                assert(seen.push(t@)[k] == u);
            }
            if u == t@ {
                assert(seen.push(t@)[seen.len() as int] == u);
            }
        }
    }
    match position_of(keys, t) {
        Some(k) => {
            proof {
                lemma_occurrences_bound(seen, kv[k as int]);
            }
            let c = counts[k];
            counts.set(k, c + 1);
            proof {
                let nv = char_views(keys@);
                assert(nv == kv);
                assert forall|j: int| 0 <= j < nv.len() implies #[trigger] counts@[j] == occurrences(seen.push(t@), nv[j]) by {
                    if j != k {
                        assert(nv[j] != t@);
                    }
                }
                assert forall|u: Seq<char>| #[trigger] nv.contains(u) <==> seen.push(t@).contains(u) by {
                    if u == t@ {
                        assert(nv[k as int] == u);
                    }
                }
            }
        },
        None => {
            let copy = copy_chars(t);
            keys.push(copy);
            counts.push(1);
            proof {
                let nv = char_views(keys@);
                assert(nv =~= kv.push(t@));
                assert(!seen.contains(t@));
                lemma_occurrences_bound(seen, t@);
                assert(occurrences(seen, t@) == 0) by {
                    lemma_occurrences_absent(seen, t@);
                }
                assert forall|j: int| 0 <= j < nv.len() implies #[trigger] counts@[j] == occurrences(seen.push(t@), nv[j]) by {
                    if j < kv.len() {
                        assert(nv[j] == kv[j]);
                        assert(kv[j] != t@) by {
                            assert(kv.contains(kv[j]));
                        }
                    }
                }
                assert forall|u: Seq<char>| #[trigger] nv.contains(u) <==> seen.push(t@).contains(u) by {
                    if nv.contains(u) && u != t@ {
                        let j = choose|j: int| 0 <= j < nv.len() && #[trigger] nv[j] == u;
                        assert(kv[j] == u);
                        assert(kv.contains(u));
                    }
                    if kv.contains(u) {
                        let j = choose|j: int| 0 <= j < kv.len() && #[trigger] kv[j] == u;
                        assert(nv[j] == u);
                    }
                    if u == t@ {
                        assert(nv[kv.len() as int] == u);
                    }
                }
                assert forall|a: int, b: int| 0 <= a < b < nv.len() implies nv[a] != nv[b] by {
                    if b == kv.len() {
                        assert(kv.contains(nv[a]));
                    }
                }
            }
        },
    }
}

proof fn lemma_occurrences_absent(s: Seq<Seq<char>>, t: Seq<char>)
    requires
        !s.contains(t),
    ensures
        occurrences(s, t) == 0,
    decreases s.len(),
{
    if s.len() > 0 {
        assert(s.last() == s[s.len() - 1]);
        if s.drop_last().contains(t) {
            let k = choose|k: int| 0 <= k < s.len() - 1 && s.drop_last()[k] == t;
            assert(s[k] == t);
        }
        lemma_occurrences_absent(s.drop_last(), t);
    }
}

proof fn lemma_emitted_grows(texts: Seq<(Seq<char>, u32)>, tokenize: bool, sw: Seq<Seq<char>>, n: int, m: int)
    requires
        0 <= n <= m,
    ensures
        forall|t: Seq<char>| emitted(texts, tokenize, sw, n).contains(t) ==> #[trigger] emitted(texts, tokenize, sw, m).contains(t),
        emitted(texts, tokenize, sw, n).len() <= emitted(texts, tokenize, sw, m).len(),
    decreases m - n,
{
    if n < m {
        lemma_emitted_grows(texts, tokenize, sw, n, m - 1);
        let a = emitted(texts, tokenize, sw, m - 1);
        let b = emitted(texts, tokenize, sw, m);
        assert forall|t: Seq<char>| a.contains(t) implies #[trigger] b.contains(t) by {
            let k = choose|k: int| 0 <= k < a.len() && a[k] == t;
            assert(b[k] == t);
        }
    }
}

proof fn lemma_sorted_position(sorted: Seq<Seq<char>>, k: int)
    requires
        strictly_sorted(sorted),
        0 <= k < sorted.len(),
    ensures
        id_of(sorted, sorted[k]) == k as u32,
{
    let i = choose|i: int| 0 <= i < sorted.len() && sorted[i] == sorted[k];
    if i != k {
        crate::dictionary::lemma_lex_lt_irreflexive(sorted[k]);
        if i < k {
            assert(crate::dictionary::lex_lt(sorted[i], sorted[k]));
        } else {
            assert(crate::dictionary::lex_lt(sorted[k], sorted[i]));
        }
    }
}

/// The full-text index of `path` over the documents: the distinct terms of
/// the path's text values (each value normalized, stopwords left out, and
/// with `tokenize` also the tokens of a value of two tokens or more), in
/// increasing order with their counts; the edges from each value's term to
/// the value; the edges from each token to its value's term; and the edges
/// from the elements of each level to their parents.
pub fn create_fulltext_index(docs: &Vec<JsonValue>, path: &str, options: &FulltextIndexOptions) -> (res: Result<FulltextIndex, IndexBuildError>)
    ensures
        res is Ok <==> emitted(walk_of(docs@, path@).1, options.tokenize, stopwords_of(*options),
            walk_of(docs@, path@).1.len() as int).len() < u32::MAX,
        res matches Err(e) ==> e == IndexBuildError::TooManyTerms,
        res matches Ok(r) ==> ({
            let texts = walk_of(docs@, path@).1;
            let sw = stopwords_of(*options);
            let all = emitted(texts, options.tokenize, sw, texts.len() as int);
            let sorted = table_terms(r.terms@);
            &&& strictly_sorted(sorted)
            &&& forall|t: Seq<char>| #[trigger] sorted.contains(t) <==> all.contains(t)
            &&& forall|i: int| 0 <= i < r.terms@.len() ==> (#[trigger] r.terms@[i]).1.id == i
                && r.terms@[i].1.num_occurences == occurrences(all, sorted[i])
            &&& edge_tuples(r.text_edges@) == text_edges(texts, sw, sorted, texts.len() as int)
            &&& edge_tuples(r.token_edges@) == token_edges(texts, options.tokenize, sw, sorted, texts.len() as int)
            &&& r.level_edges@.len() == walk_of(docs@, path@).0.len()
            &&& forall|k: int| 0 <= k < r.level_edges@.len() ==> edge_tuples(#[trigger] r.level_edges@[k]@) == level_edges(walk_of(docs@, path@).0[k])
        }),
{
    let w = walk_path(docs, path);
    let ghost texts = texts_view(w.texts@);
    let ghost swv = stopwords_of(*options);
    let tokenize = options.tokenize;
    let mut sw: Vec<Vec<char>> = Vec::new();
    match &options.stopwords {
        Some(list) => {
            let mut i: usize = 0;
            while i < list.len()
                invariant
                    i <= list@.len(),
                    sw@.len() == i,
                    char_views(sw@) == list@.subrange(0, i as int).map_values(|s: String| s@),
                decreases list@.len() - i,
            {
                let ghost before = char_views(sw@);
                let ghost old_sw = sw@;
                sw.push(chars_of(list[i].as_str()));
                assert forall|x: int| 0 <= x < i + 1 implies #[trigger] char_views(sw@)[x] == list@.subrange(0, i + 1).map_values(|s: String| s@)[x] by {
                    if x < i {
                        assert(sw@[x] == old_sw[x]);
                        assert(before[x] == list@.subrange(0, i as int).map_values(|s: String| s@)[x]);
                    }
                }
                assert(char_views(sw@) =~= list@.subrange(0, i + 1).map_values(|s: String| s@));
                i = i + 1;
            }
            assert(list@.subrange(0, list@.len() as int) =~= list@);
        },
        None => {
            assert(char_views(sw@) =~= Seq::<Seq<char>>::empty());
        },
    }
    let n_texts = w.texts.len();
    let ghost total = emitted(texts, tokenize, swv, n_texts as int);
    proof {
        lemma_emitted_grows(texts, tokenize, swv, 0, n_texts as int);
        assert(texts.len() == w.texts@.len());
    }
    let mut count: u32 = 0;
    let mut keys: Vec<Vec<char>> = Vec::new();
    let mut counts: Vec<u32> = Vec::new();
    let ghost mut seen: Seq<Seq<char>> = seq![];
    let mut n: usize = 0;
    while n < n_texts
        invariant
            n_texts == w.texts@.len(),
            texts == texts_view(w.texts@),
            swv == char_views(sw@),
            total == emitted(texts, tokenize, swv, n_texts as int),
            n <= n_texts,
            seen == emitted(texts, tokenize, swv, n as int),
            seen.len() <= total.len(),
            count == seen.len(),
            count < u32::MAX,
            texts == walk_of(docs@, path@).1,
            swv == stopwords_of(*options),
            tokenize == options.tokenize,
            table_of(char_views(keys@), counts@, seen),
            keys@.len() <= seen.len(),
        decreases n_texts - n,
    {
        proof {
            lemma_emitted_grows(texts, tokenize, swv, n + 1, n_texts as int);
        }
        let norm_string = normalize_text(w.texts[n].0.as_str());
        let norm = chars_of(norm_string.as_str());
        assert(texts[n as int].0 == w.texts@[n as int].0@);
        let ghost vterms = value_terms(norm@, tokenize, swv);
        assert(emitted(texts, tokenize, swv, n + 1) == seen + vterms);
        let stop = position_of(&sw, &norm);
        proof {
            if let Some(j) = stop {
                assert(swv[j as int] == norm@);
            }
        }
        if stop.is_none() {
            if count >= u32::MAX - 1 {
                proof {
                    assert(emitted(texts, tokenize, swv, n + 1).len() >= seen.len() + 1);
                    assert(total.len() >= u32::MAX);
                }
                return Err(IndexBuildError::TooManyTerms);
            }
            add_term(&mut keys, &mut counts, &norm, Ghost(seen));
            count = count + 1;
            proof {
                seen = seen.push(norm@);
            }
            let toks = tokens_kept(&norm, tokenize, &sw);
            let ghost tv = char_views(toks@);
            let ghost base = seen;
            let mut k: usize = 0;
            while k < toks.len()
                invariant
                    tv == char_views(toks@),
                    tv == value_tokens(norm@, tokenize, swv),
                    emitted(texts, tokenize, swv, n + 1).len() <= total.len(),
                    base + tv == emitted(texts, tokenize, swv, n + 1),
                    k <= toks@.len(),
                    seen == base + tv.subrange(0, k as int),
                    count == seen.len(),
                    count < u32::MAX,
                    total == emitted(texts, tokenize, swv, n_texts as int),
                    texts == walk_of(docs@, path@).1,
                    swv == stopwords_of(*options),
                    tokenize == options.tokenize,
                    texts.len() == n_texts,
                    table_of(char_views(keys@), counts@, seen),
                    keys@.len() <= seen.len(),
                decreases toks@.len() - k,
            {
                assert(tv[k as int] == toks@[k as int]@);
                if count >= u32::MAX - 1 {
                    proof {
                        assert((base + tv).len() == base.len() + tv.len());
                        assert(tv.subrange(0, k as int).len() == k);
                        assert(seen.len() == base.len() + k);
                        assert(tv.len() == toks@.len());
                        assert(emitted(texts, tokenize, swv, n + 1).len() >= u32::MAX);
                        assert(total.len() >= u32::MAX);
                        assert(texts.len() == n_texts);
                    }
                    return Err(IndexBuildError::TooManyTerms);
                }
                add_term(&mut keys, &mut counts, &toks[k], Ghost(seen));
                count = count + 1;
                proof {
                    assert(base + tv.subrange(0, k + 1) =~= seen.push(tv[k as int]));
                    seen = seen.push(toks@[k as int]@);
                }
                k = k + 1;
            }
            proof {
                assert(tv.subrange(0, tv.len() as int) =~= tv);
                assert(seq![norm@] + tv =~= vterms);
                assert(base =~= emitted(texts, tokenize, swv, n as int).push(norm@));
                assert(emitted(texts, tokenize, swv, n as int).push(norm@) + tv =~= emitted(texts, tokenize, swv, n as int) + (seq![norm@] + tv));
            }
        } else {
            proof {
                let j = choose|j: int| 0 <= j < sw@.len() && #[trigger] sw@[j]@ == norm@;
                assert(swv[j] == norm@);
            }
            assert(vterms =~= Seq::<Seq<char>>::empty());
            assert(seen + vterms =~= seen);
        }
        n = n + 1;
    }
    assert(total.len() < u32::MAX);
    proof {
        assert forall|a: int, b: int| 0 <= a < b < keys@.len() implies keys@[a]@ != keys@[b]@ by {
            assert(char_views(keys@)[a] == keys@[a]@);
            assert(char_views(keys@)[b] == keys@[b]@);
        }
    }
    let sorted = sort_terms(&keys);
    let ghost sv = char_views(sorted@);
    let mut terms: Vec<(String, TermInfo)> = Vec::new();
    let mut i: usize = 0;
    while i < sorted.len()
        invariant
            sv == char_views(sorted@),
            strictly_sorted(sv),
            sv.len() == keys@.len(),
            forall|t: Seq<char>| #[trigger] sv.contains(t) <==> char_views(keys@).contains(t),
            table_of(char_views(keys@), counts@, total),
            total.len() < u32::MAX,
            keys@.len() <= total.len(),
            i <= sv.len(),
            terms@.len() == i,
            forall|j: int| 0 <= j < i ==> (#[trigger] terms@[j]).0@ == sv[j] && terms@[j].1.id == j
                && terms@[j].1.num_occurences == occurrences(total, sv[j]),
        decreases sv.len() - i,
    {
        assert(sv.contains(sv[i as int]));
        proof {
            assert(sv[i as int] == sorted@[i as int]@);
            assert(char_views(keys@).contains(sorted@[i as int]@));
        }
        let k = position_of(&keys, &sorted[i]).unwrap();
        proof {
            assert(char_views(keys@)[k as int] == sv[i as int]);
        }
        let name = string_of(sorted[i].as_slice());
        let ghost before = terms@;
        terms.push((name, TermInfo { id: i as u32, num_occurences: counts[k] }));
        proof {
            assert(terms@[i as int].0@ == sv[i as int]);
            assert forall|j: int| 0 <= j < i + 1 implies (#[trigger] terms@[j]).0@ == sv[j] && terms@[j].1.id == j
                && terms@[j].1.num_occurences == occurrences(total, sv[j]) by {
                if j < i {
                    assert(terms@[j] == before[j]);
                }
            }
        }
        i = i + 1;
    }
    let mut text_out: Vec<ValIdPair> = Vec::new();
    let mut token_out: Vec<ValIdPair> = Vec::new();
    let mut n: usize = 0;
    while n < n_texts
        invariant
            n_texts == w.texts@.len(),
            texts == texts_view(w.texts@),
            swv == char_views(sw@),
            sv == char_views(sorted@),
            strictly_sorted(sv),
            forall|t: Seq<char>| #[trigger] sv.contains(t) <==> total.contains(t),
            total == emitted(texts, tokenize, swv, n_texts as int),
            total.len() < u32::MAX,
            sv.len() <= total.len(),
            n <= n_texts,
            edge_tuples(text_out@) == text_edges(texts, swv, sv, n as int),
            edge_tuples(token_out@) == token_edges(texts, tokenize, swv, sv, n as int),
        decreases n_texts - n,
    {
        proof {
            lemma_emitted_grows(texts, tokenize, swv, n + 1, n_texts as int);
        }
        let norm_string = normalize_text(w.texts[n].0.as_str());
        let norm = chars_of(norm_string.as_str());
        assert(texts[n as int].0 == w.texts@[n as int].0@);
        let value_id = w.texts[n].1;
        assert(texts[n as int].1 == value_id);
        let stop = position_of(&sw, &norm);
        proof {
            if let Some(j) = stop {
                assert(swv[j as int] == norm@);
            }
        }
        if stop.is_none() {
            let ghost vterms = value_terms(norm@, tokenize, swv);
            proof {
                assert(vterms[0] == norm@);
                assert(emitted(texts, tokenize, swv, n + 1)[emitted(texts, tokenize, swv, n as int).len() as int] == norm@);
                assert(total.contains(norm@));
            }
            let id = position_of(&sorted, &norm).unwrap();
            proof {
                assert(sv[id as int] == norm@);
                lemma_sorted_position(sv, id as int);
            }
            let ghost before_text = edge_tuples(text_out@);
            text_out.push(ValIdPair { valid: id as u32, parent_val_id: value_id });
            assert(edge_tuples(text_out@) =~= before_text.push((id as u32, value_id)));
            let toks = tokens_kept(&norm, tokenize, &sw);
            let ghost tv = char_views(toks@);
            let ghost base = edge_tuples(token_out@);
            let ghost mapped = tv.map_values(|t: Seq<char>| (id_of(sv, t), id_of(sv, norm@)));
            let mut k: usize = 0;
            while k < toks.len()
                invariant
                    tv == char_views(toks@),
                    tv == value_tokens(norm@, tokenize, swv),
                    vterms == value_terms(norm@, tokenize, swv),
                    !is_stop(swv, norm@),
                    mapped == tv.map_values(|t: Seq<char>| (id_of(sv, t), id_of(sv, norm@))),
                    sv == char_views(sorted@),
                    strictly_sorted(sv),
                    forall|t: Seq<char>| #[trigger] sv.contains(t) <==> total.contains(t),
                    forall|t: Seq<char>| emitted(texts, tokenize, swv, n + 1).contains(t) ==> #[trigger] total.contains(t),
                    emitted(texts, tokenize, swv, n + 1) == emitted(texts, tokenize, swv, n as int) + vterms,
                    sv.len() <= total.len(),
                    total.len() < u32::MAX,
                    id_of(sv, norm@) == id as u32,
                    k <= toks@.len(),
                    edge_tuples(token_out@) == base + mapped.subrange(0, k as int),
                decreases toks@.len() - k,
            {
                proof {
                    let e = emitted(texts, tokenize, swv, n as int);
                    assert(tv[k as int] == toks@[k as int]@);
                    assert(vterms[k + 1] == tv[k as int]);
                    assert(emitted(texts, tokenize, swv, n + 1)[e.len() + k + 1] == tv[k as int]);
                    assert(total.contains(tv[k as int]));
                }
                let tid = position_of(&sorted, &toks[k]).unwrap();
                proof {
                    assert(sv[tid as int] == tv[k as int]);
                    lemma_sorted_position(sv, tid as int);
                    assert(mapped[k as int] == (id_of(sv, tv[k as int]), id_of(sv, norm@)));
                }
                let ghost before = edge_tuples(token_out@);
                token_out.push(ValIdPair { valid: tid as u32, parent_val_id: id as u32 });
                assert(edge_tuples(token_out@) =~= before.push((tid as u32, id as u32)));
                assert(base + mapped.subrange(0, k + 1) =~= (base + mapped.subrange(0, k as int)).push(mapped[k as int]));
                k = k + 1;
            }
            assert(mapped.subrange(0, mapped.len() as int) =~= mapped);
            assert(token_edges_of(norm@, tokenize, swv, sv) == mapped);
        } else {
            assert(is_stop(swv, norm@));
        }
        n = n + 1;
    }
    let mut levels_out: Vec<Vec<ValIdPair>> = Vec::new();
    let mut l: usize = 0;
    let ghost lv = levels_view(w.levels@);
    while l < w.levels.len()
        invariant
            lv == levels_view(w.levels@),
            l <= w.levels@.len(),
            levels_out@.len() == l,
            forall|k: int| 0 <= k < l ==> edge_tuples(#[trigger] levels_out@[k]@) == level_edges(lv[k]),
        decreases w.levels@.len() - l,
    {
        let parents = &w.levels[l];
        assert(lv[l as int] == parents@);
        let mut edges: Vec<ValIdPair> = Vec::new();
        let mut i: usize = 0;
        while i < parents.len()
            invariant
                i <= parents@.len(),
                edges@.len() == i,
                edge_tuples(edges@) == level_edges(parents@).subrange(0, i as int),
            decreases parents@.len() - i,
        {
            let ghost before = edge_tuples(edges@);
            let ghost old_edges = edges@;
            edges.push(ValIdPair { valid: #[verifier::truncate] (i as u32), parent_val_id: parents[i] });
            assert forall|x: int| 0 <= x < i + 1 implies #[trigger] edge_tuples(edges@)[x] == level_edges(parents@).subrange(0, i + 1)[x] by {
                if x < i {
                    assert(edges@[x] == old_edges[x]);
                    assert(before[x] == level_edges(parents@).subrange(0, i as int)[x]);
                }
            }
            assert(edge_tuples(edges@) =~= level_edges(parents@).subrange(0, i + 1));
            i = i + 1;
        }
        assert(level_edges(parents@).subrange(0, parents@.len() as int) =~= level_edges(parents@));
        levels_out.push(edges);
        i = 0;
        l = l + 1;
    }
    proof {
        assert(table_terms(terms@) =~= sv);
        assert(lv == walk_of(docs@, path@).0);
        assert(texts == walk_of(docs@, path@).1);
    }
    Ok(FulltextIndex { terms, text_edges: text_out, token_edges: token_out, level_edges: levels_out })
}

/// The value of an ASCII digit.
pub open spec fn digit_value(c: char) -> int {
    (c as int) - ('0' as int)
}

/// Every character is an ASCII digit.
pub open spec fn all_digits(s: Seq<char>) -> bool {
    forall|i: int| 0 <= i < s.len() ==> '0' <= #[trigger] s[i] <= '9'
}

/// The number that a string of decimal digits denotes.
pub open spec fn decimal_value(s: Seq<char>) -> int
    decreases s.len(),
{
    if s.len() == 0 {
        0
    } else {
        10 * decimal_value(s.drop_last()) + digit_value(s.last())
    }
}

/// The `u32` that a text denotes: an optional `+` and one or more decimal
/// digits, at most `u32::MAX`.
pub open spec fn parsed_u32(s: Seq<char>) -> Option<u32> {
    let d = if s.len() > 0 && s[0] == '+' { s.drop_first() } else { s };
    if d.len() > 0 && all_digits(d) && decimal_value(d) <= u32::MAX {
        Some(decimal_value(d) as u32)
    } else {
        None
    }
}

proof fn lemma_decimal_value_nonneg(s: Seq<char>)
    requires
        all_digits(s),
    ensures
        decimal_value(s) >= 0,
    decreases s.len(),
{
    if s.len() > 0 {
        assert(all_digits(s.drop_last())) by {
            assert forall|i: int| 0 <= i < s.drop_last().len() implies '0' <= #[trigger] s.drop_last()[i] <= '9' by {
                assert(s.drop_last()[i] == s[i]);
            }
        }
        lemma_decimal_value_nonneg(s.drop_last());
    }
}

/// Reads a `u32` written in decimal, with an optional leading `+`.
pub fn parse_u32(text: &str) -> (r: Option<u32>)
    ensures
        r == parsed_u32(text@),
{
    let s = chars_of(text);
    let start: usize = if s.len() > 0 && s[0] == '+' { 1 } else { 0 };
    let ghost d = if s@.len() > 0 && s@[0] == '+' { s@.drop_first() } else { s@ };
    assert(d =~= s@.subrange(start as int, s@.len() as int));
    if start >= s.len() {
        return None;
    }
    let mut value: u64 = 0;
    let mut i = start;
    while i < s.len()
        invariant
            start <= i <= s@.len(),
            s@ == text@,
            d == s@.subrange(start as int, s@.len() as int),
            d == if text@.len() > 0 && text@[0] == '+' { text@.drop_first() } else { text@ },
            all_digits(s@.subrange(start as int, i as int)),
            value == decimal_value(s@.subrange(start as int, i as int)),
            value <= u32::MAX,
        decreases s@.len() - i,
    {
        let c = s[i];
        let prefix = Ghost(s@.subrange(start as int, i + 1));
        assert(prefix@.drop_last() =~= s@.subrange(start as int, i as int));
        if c < '0' || c > '9' {
            proof {
                assert(d[i - start] == c);
                assert(!all_digits(d));
            }
            return None;
        }
        let digit = (c as u32) - ('0' as u32);
        assert(digit as int == digit_value(c));
        proof {
            assert forall|k: int| 0 <= k < prefix@.len() implies '0' <= #[trigger] prefix@[k] <= '9' by {
                if k < prefix@.len() - 1 {
                    assert(prefix@[k] == s@.subrange(start as int, i as int)[k]);
                }
            }
            assert(prefix@.last() == c);
        }
        let next = value * 10 + digit as u64;
        assert(next == decimal_value(prefix@));
        if next > 4294967295u64 {
            proof {
                assert(d.subrange(0, i - start + 1) =~= prefix@);
                lemma_decimal_prefix_grows(d, i - start + 1);
            }
            return None;
        }
        value = next;
        i = i + 1;
    }
    assert(d =~= s@.subrange(start as int, i as int));
    Some(value as u32)
}

/// Once a prefix of a digit string denotes more than `u32::MAX`, the whole
/// string does, or the string has a non-digit.
proof fn lemma_decimal_prefix_grows(d: Seq<char>, n: int)
    requires
        0 < n <= d.len(),
        all_digits(d.subrange(0, n)),
        decimal_value(d.subrange(0, n)) > u32::MAX,
    ensures
        !(all_digits(d) && decimal_value(d) <= u32::MAX),
    decreases d.len() - n,
{
    if n < d.len() && all_digits(d) {
        let p = d.subrange(0, n + 1);
        assert(p.drop_last() =~= d.subrange(0, n));
        assert(all_digits(p));
        assert(decimal_value(p) > u32::MAX);
        lemma_decimal_prefix_grows(d, n + 1);
    } else if n == d.len() {
        assert(d.subrange(0, n) =~= d);
    }
}

/// The boost entries of the first `n` text values, while each of them
/// denotes a `u32`.
pub open spec fn boost_entries(texts: Seq<(Seq<char>, u32)>, n: int) -> Seq<(u32, u32)>
    decreases n,
{
    if n <= 0 {
        seq![]
    } else {
        boost_entries(texts, n - 1).push((texts[n - 1].1, parsed_u32(texts[n - 1].0)->0))
    }
}

/// The boost entries of a path: for boost type `"int"`, each text value's
/// id with the number it denotes; no entries for another type. Fails at the
/// first value that is no `u32`, with its position in the walk.
pub fn create_boost_index(docs: &Vec<JsonValue>, path: &str, options: &BoostIndexOptions) -> (r: Result<Vec<ValIdToValue>, IndexBuildError>)
    ensures
        ({
            let texts = walk_of(docs@, path@).1;
            if options.boost_type@ == "int"@ {
                match r {
                    Ok(v) => (forall|i: int| 0 <= i < texts.len() ==> #[trigger] parsed_u32(texts[i].0) is Some)
                        && boost_tuples(v@) == boost_entries(texts, texts.len() as int),
                    Err(e) => exists|i: int| 0 <= i < texts.len() && e == IndexBuildError::NotAnInteger(i as u32)
                        && parsed_u32(#[trigger] texts[i].0) is None
                        && forall|j: int| 0 <= j < i ==> #[trigger] parsed_u32(texts[j].0) is Some,
                }
            } else {
                r matches Ok(v) && v@.len() == 0
            }
        }),
{
    let mut out: Vec<ValIdToValue> = Vec::new();
    let kind = chars_of(options.boost_type.as_str());
    let int_kind = chars_of("int");
    if !chars_eq(&kind, &int_kind) {
        return Ok(out);
    }
    let w = walk_path(docs, path);
    let ghost texts = texts_view(w.texts@);
    assert(texts.len() == w.texts@.len());
    let mut n: usize = 0;
    while n < w.texts.len()
        invariant
            texts == texts_view(w.texts@),
            texts == walk_of(docs@, path@).1,
            texts.len() == w.texts@.len(),
            options.boost_type@ == "int"@,
            n <= w.texts@.len(),
            forall|j: int| 0 <= j < n ==> #[trigger] parsed_u32(texts[j].0) is Some,
            boost_tuples(out@) == boost_entries(texts, n as int),
        decreases w.texts@.len() - n,
    {
        assert(texts[n as int] == (w.texts@[n as int].0@, w.texts@[n as int].1));
        match parse_u32(w.texts[n].0.as_str()) {
            Some(value) => {
                let ghost before = boost_tuples(out@);
                out.push(ValIdToValue { valid: w.texts[n].1, value });
                assert(boost_tuples(out@) =~= before.push((texts[n as int].1, value)));
            },
            None => {
                let e = IndexBuildError::NotAnInteger(#[verifier::truncate] (n as u32));
                proof {
                    assert(parsed_u32(texts[n as int].0) is None);
                    assert(e == IndexBuildError::NotAnInteger(n as int as u32));
                }
                return Err(e);
            },
        }
        n = n + 1;
    }
    Ok(out)
}

/// The token values among the first `n` entries: for each entry with a
/// value whose text is a term of `m` as it stands, that term's id with the
/// value.
pub open spec fn token_value_entries(m: Map<Seq<char>, u64>, entries: Seq<(String, Option<u32>)>, n: int) -> Seq<(u32, u32)>
    decreases n,
{
    if n <= 0 {
        seq![]
    } else {
        let prev = token_value_entries(m, entries, n - 1);
        let t = entries[n - 1].0@;
        match entries[n - 1].1 {
            Some(v) => if m.contains_key(t) {
                prev.push((m[t] as u32, v))
            } else {
                prev
            },
            None => prev,
        }
    }
}

/// Gives values to the terms of a dictionary: each entry with a value
/// whose text is exactly a term yields that term's id with the value.
pub fn token_values(dict: &TermDictionary, entries: &Vec<(String, Option<u32>)>) -> (r: Vec<ValIdToValue>)
    ensures
        boost_tuples(r@) == token_value_entries(dict.entries(), entries@, entries@.len() as int),
{
    let mut out: Vec<ValIdToValue> = Vec::new();
    let mut i: usize = 0;
    while i < entries.len()
        invariant
            i <= entries@.len(),
            boost_tuples(out@) == token_value_entries(dict.entries(), entries@, i as int),
        decreases entries@.len() - i,
    {
        match entries[i].1 {
            Some(value) => {
                match exact_search(dict, entries[i].0.as_str()) {
                    Some(id) => {
                        let ghost before = boost_tuples(out@);
                        out.push(ValIdToValue { valid: #[verifier::truncate] (id as u32), value });
                        assert(boost_tuples(out@) =~= before.push((id as u32, value)));
                    },
                    None => {},
                }
            },
            None => {},
        }
        i = i + 1;
    }
    out
}

} // verus!
