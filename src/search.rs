//! The dictionary side of a field search, and the helpers of the executor
//! that carry no score: the driver of an AND clause and the edit distance
//! of a candidate term.

use vstd::prelude::*;
use crate::dictionary::{result_terms, strictly_sorted, complete_search, edit_distance, lev_builds, search_terms, term_matches, TermDictionary};
use crate::normalize::{normalize_text, normalized};
use crate::text::{chars_eq, chars_of};

verus! {

/// One search on one path.
pub struct RequestSearchPart {
    pub path: String,
    pub terms: Vec<String>,
    pub levenshtein_distance: Option<u32>,
    pub starts_with: Option<bool>,
    pub first_char_exact_match: Option<bool>,
    pub ignore_case: Option<bool>,
    pub return_term: Option<bool>,
}

/// How a boost value enters the score.
#[derive(PartialEq, Eq, Structural, Clone, Copy, Debug)]
pub enum BoostFunction {
    Log10,
}

/// The position of the first shortest result; `0` where there is none.
pub fn get_shortest_result(lengths: &[usize]) -> (r: usize)
    ensures
        lengths@.len() == 0 ==> r == 0,
        lengths@.len() > 0 ==> r < lengths@.len(),
        forall|i: int| 0 <= i < lengths@.len() ==> lengths@[r as int] <= lengths@[i],
        forall|i: int| 0 <= i < r ==> lengths@[i] > lengths@[r as int],
{
    let mut best: usize = 0;
    let mut i: usize = 1;
    if lengths.len() == 0 {
        return 0;
    }
    while i < lengths.len()
        invariant
            lengths@.len() > 0,
            1 <= i <= lengths@.len(),
            best < i,
            forall|k: int| 0 <= k < i ==> lengths@[best as int] <= lengths@[k],
            forall|k: int| 0 <= k < best ==> lengths@[k] > lengths@[best as int],
        decreases lengths@.len() - i,
    {
        if lengths[i] < lengths[best] {
            best = i;
        }
        i = i + 1;
    }
    best
}

proof fn lemma_edit_distance_bound(a: Seq<char>, b: Seq<char>)
    ensures
        edit_distance(a, b) <= a.len() + b.len(),
    decreases a.len() + b.len(),
{
    if a.len() > 0 && b.len() > 0 {
        lemma_edit_distance_bound(a.drop_last(), b);
    }
}

/// The edit distance between two texts, counted in characters.
pub fn distance(s1: &str, s2: &str) -> (r: u32)
    requires
        s1@.len() + s2@.len() < u32::MAX,
    ensures
        r == edit_distance(s1@, s2@),
{
    let a = chars_of(s1);
    let b = chars_of(s2);
    let len_a = a.len();
    let mut column: Vec<u32> = Vec::new();
    let mut y: usize = 0;
    while y <= len_a
        invariant
            len_a == a@.len(),
            a@.len() + b@.len() < u32::MAX,
            y <= len_a + 1,
            column@.len() == y,
            forall|k: int| 0 <= k < y ==> #[trigger] column@[k] == edit_distance(a@.subrange(0, k), b@.subrange(0, 0)),
        decreases len_a + 1 - y,
    {
        assert(edit_distance(a@.subrange(0, y as int), b@.subrange(0, 0)) == y);
        column.push(y as u32);
        y = y + 1;
    }
    let mut x: usize = 0;
    while x < b.len()
        invariant
            len_a == a@.len(),
            a@.len() + b@.len() < u32::MAX,
            x <= b@.len(),
            column@.len() == len_a + 1,
            forall|k: int| 0 <= k <= len_a ==> #[trigger] column@[k] == edit_distance(a@.subrange(0, k), b@.subrange(0, x as int)),
        decreases b@.len() - x,
    {
        let ghost prev = column@;
        let c2 = b[x];
        column.set(0, (x + 1) as u32);
        let mut lastdiag: u32 = x as u32;
        let mut y: usize = 0;
        while y < len_a
            invariant
                len_a == a@.len(),
                a@.len() + b@.len() < u32::MAX,
                x < b@.len(),
                c2 == b@[x as int],
                y <= len_a,
                column@.len() == len_a + 1,
                forall|k: int| 0 <= k <= len_a ==> #[trigger] prev[k] == edit_distance(a@.subrange(0, k), b@.subrange(0, x as int)),
                forall|k: int| 0 <= k <= y ==> #[trigger] column@[k] == edit_distance(a@.subrange(0, k), b@.subrange(0, x + 1)),
                forall|k: int| y < k <= len_a ==> #[trigger] column@[k] == prev[k],
                lastdiag == prev[y as int],
            decreases len_a - y,
        {
            let ghost pa = a@.subrange(0, y + 1);
            let ghost pb = b@.subrange(0, x + 1);
            proof {
                assert(pa.drop_last() =~= a@.subrange(0, y as int));
                assert(pb.drop_last() =~= b@.subrange(0, x as int));
                assert(pa.last() == a@[y as int]);
                assert(pb.last() == c2);
                lemma_edit_distance_bound(a@.subrange(0, y as int), b@.subrange(0, x as int));
                lemma_edit_distance_bound(a@.subrange(0, y + 1), b@.subrange(0, x as int));
                lemma_edit_distance_bound(a@.subrange(0, y as int), b@.subrange(0, x + 1));
            }
            let cost: u32 = if a[y] != c2 { 1 } else { 0 };
            let diag = lastdiag + cost;
            let olddiag = column[y + 1];
            let up = column[y + 1] + 1;
            let left = column[y] + 1;
            let v = if diag <= left && diag <= up {
                diag
            } else if left <= up {
                left
            } else {
                up
            };
            column.set(y + 1, v);
            lastdiag = olddiag;
            y = y + 1;
        }
        x = x + 1;
    }
    proof {
        assert(a@.subrange(0, len_a as int) =~= a@);
        assert(b@.subrange(0, b@.len() as int) =~= b@);
    }
    column[len_a]
}

/// The query text of a search part: its first term, normalized unless
/// `ignore_case` is `Some(false)`.
pub open spec fn query_text(part: RequestSearchPart) -> Seq<char> {
    if part.ignore_case == Some(false) {
        part.terms@[0]@
    } else {
        normalized(part.terms@[0]@)
    }
}

/// The edit distance of a search part; none given is zero.
pub open spec fn query_distance(part: RequestSearchPart) -> nat {
    match part.levenshtein_distance {
        Some(d) => d as nat,
        None => 0nat,
    }
}

/// `v` is what a search part finds in a dictionary holding `m`: terms
/// that it asks for, in increasing order, each once and with its term id;
/// all of them where the search is complete (distance zero or an ASCII
/// query).
pub open spec fn field_result(m: Map<Seq<char>, u64>, part: RequestSearchPart, v: Seq<(String, u64)>) -> bool {
    &&& part.terms@.len() > 0
    &&& strictly_sorted(result_terms(v))
    &&& forall|i: int| 0 <= i < v.len() ==> m[#[trigger] v[i].0@] == v[i].1
        && term_matches(m, query_text(part), query_distance(part), prefix_search(part.starts_with), v[i].0@)
    &&& complete_search(query_text(part), query_distance(part)) ==> forall|k: Seq<char>|
        #[trigger] term_matches(m, query_text(part), query_distance(part), prefix_search(part.starts_with), k)
        ==> exists|i: int| 0 <= i < v.len() && #[trigger] v[i].0@ == k
}

/// A search part can be run: it has a term, and the automaton for its
/// query can be built.
pub open spec fn runnable(part: RequestSearchPart) -> bool {
    part.terms@.len() > 0 && lev_builds(query_text(part), query_distance(part))
}

/// The terms of a path's dictionary that a search part asks for: the first
/// term of the part, normalized unless `ignore_case` is `Some(false)`,
/// matched within the part's edit distance (none given is zero), or as a
/// prefix where `starts_with` is `Some(true)`. `None` exactly where the
/// part has no term or the automaton cannot be built.
pub fn find_terms_in_field(dict: &TermDictionary, part: &RequestSearchPart) -> (r: Option<Vec<(String, u64)>>)
    ensures
        r is Some <==> runnable(*part),
        r matches Some(v) ==> field_result(dict.entries(), *part, v@),
{
    if part.terms.len() == 0 {
        return None;
    }
    let term = if part.ignore_case == Some(false) {
        part.terms[0].clone()
    } else {
        normalize_text(part.terms[0].as_str())
    };
    let d = match part.levenshtein_distance {
        Some(d) => d,
        None => 0,
    };
    let starts_with = part.starts_with == Some(true);
    search_terms(dict, term.as_str(), d, starts_with)
}

/// A search part with this `starts_with` searches by prefix.
pub open spec fn prefix_search(o: Option<bool>) -> bool {
    o == Some(true)
}

/// Why a field search found nothing to search.
#[derive(PartialEq, Eq, Structural, Clone, Copy, Debug)]
pub enum FieldError {
    /// No dictionary is known under the path.
    MissingPath,
    /// The automaton for the query could not be built.
    Automaton,
}

/// The term dictionaries of the indexed paths: `dicts[i]` belongs to
/// `paths[i]`.
pub struct FieldDictionaries {
    pub paths: Vec<String>,
    pub dicts: Vec<TermDictionary>,
}

impl FieldDictionaries {
    /// The dictionaries match the paths one to one.
    pub open spec fn wf(&self) -> bool {
        self.paths@.len() == self.dicts@.len()
    }

    /// The path is known.
    pub open spec fn knows(&self, path: Seq<char>) -> bool {
        exists|i: int| 0 <= i < self.paths@.len() && #[trigger] self.paths@[i]@ == path
    }

    /// The dictionary of `path`, or [`FieldError::MissingPath`] where no
    /// dictionary is known under it.
    pub fn get(&self, path: &str) -> (r: Result<&TermDictionary, FieldError>)
        requires
            self.wf(),
        ensures
            r is Err <==> !self.knows(path@),
            r matches Err(e) ==> e == FieldError::MissingPath,
            r matches Ok(m) ==> exists|i: int| 0 <= i < self.paths@.len() && #[trigger] self.paths@[i]@ == path@ && *m == self.dicts@[i],
    {
        let p = chars_of(path);
        let mut i: usize = 0;
        while i < self.paths.len()
            invariant
                self.wf(),
                p@ == path@,
                i <= self.paths@.len(),
                forall|j: int| 0 <= j < i ==> #[trigger] self.paths@[j]@ != path@,
            decreases self.paths@.len() - i,
        {
            let name = chars_of(self.paths[i].as_str());
            if chars_eq(&name, &p) {
                return Ok(&self.dicts[i]);
            }
            i = i + 1;
        }
        Err(FieldError::MissingPath)
    }
}

/// The dictionary terms that a search part asks for, as
/// [`find_terms_in_field`] gives them, from the dictionary of the part's
/// path; an unknown path is [`FieldError::MissingPath`], a part that
/// cannot be run is [`FieldError::Automaton`].
pub fn search_field(dicts: &FieldDictionaries, part: &RequestSearchPart) -> (r: Result<Vec<(String, u64)>, FieldError>)
    requires
        dicts.wf(),
    ensures
        !dicts.knows(part.path@) ==> r == Err::<Vec<(String, u64)>, FieldError>(FieldError::MissingPath),
        dicts.knows(part.path@) ==> (r is Ok <==> runnable(*part)),
        dicts.knows(part.path@) && !runnable(*part) ==> r == Err::<Vec<(String, u64)>, FieldError>(FieldError::Automaton),
        r matches Ok(v) ==> exists|i: int| 0 <= i < dicts.paths@.len() && #[trigger] dicts.paths@[i]@ == part.path@
            && field_result(dicts.dicts@[i].entries(), *part, v@),
{
    match dicts.get(part.path.as_str()) {
        Err(e) => Err(e),
        Ok(dict) => match find_terms_in_field(dict, part) {
            Some(v) => {
                proof {
                    let i = choose|i: int| 0 <= i < dicts.paths@.len() && #[trigger] dicts.paths@[i]@ == part.path@
                        && *dict == dicts.dicts@[i];
                    assert(dict.entries() == dicts.dicts@[i].entries());
                }
                Ok(v)
            },
            None => Err(FieldError::Automaton),
        },
    }
}

/// A search on a known path whose dictionary holds no matching term
/// finds nothing: its result is empty, and no error.
pub proof fn lemma_no_match_is_empty(m: Map<Seq<char>, u64>, part: RequestSearchPart, v: Seq<(String, u64)>)
    requires
        field_result(m, part, v),
        forall|k: Seq<char>| !#[trigger] term_matches(m, query_text(part), query_distance(part), prefix_search(part.starts_with), k),
    ensures
        v.len() == 0,
{
    if v.len() > 0 {
        assert(term_matches(m, query_text(part), query_distance(part), prefix_search(part.starts_with), v[0].0@));
    }
}

} // verus!
