//! The query grammar.
//!
//! ```text
//! Query    := Atom ( Op Atom )*          left to right, no precedence
//! Op       := WS+ ('AND' | 'OR') WS+
//! Atom     := '(' Query ')' | Term ( WS Term )*      a run of terms is an OR
//! Term     := [Field ':'] Phrase [ '~' Digit ]
//! Field    := Letter (Alphanumeric | '_')*
//! Phrase   := '"' NonQuote+ '"' | Word
//! Word     := (not whitespace, '(', ')' or '~')+, other than AND and OR
//! ```
//!
//! A term is read by the first of these forms that fits: field with
//! distance, phrase with distance, field, phrase.

use vstd::prelude::*;
use crate::query::{combine, combined, models, well_formed, Filter, Operator, Query, UserAST, UserFilter};
use crate::text::{chars_of, string_of};

verus! {

/// What `char::is_whitespace` returns for `c`.
pub uninterp spec fn whitespace(c: char) -> bool;

/// What `char::is_alphabetic` returns for `c`.
pub uninterp spec fn alphabetic(c: char) -> bool;

/// What `char::is_alphanumeric` returns for `c`.
pub uninterp spec fn alphanumeric(c: char) -> bool;

/// Relies on `char::is_whitespace` (the Unicode `White_Space` property).
#[verifier::external_body]
fn is_whitespace(c: char) -> (r: bool)
    ensures
        r == whitespace(c),
        c == ' ' || c == '\t' || c == '\n' || c == '\r' ==> r,
        ('a' <= c <= 'z') || ('A' <= c <= 'Z') || ('0' <= c <= '9') || c == '(' || c == ')' || c == '~' || c == '"' || c == ':' ==> !r,
{
    c.is_whitespace()
}

/// Relies on `char::is_alphabetic` (the Unicode `Alphabetic` property).
#[verifier::external_body]
fn is_alphabetic(c: char) -> (r: bool)
    ensures
        r == alphabetic(c),
        ('a' <= c <= 'z') || ('A' <= c <= 'Z') ==> r,
        ('0' <= c <= '9') || c == ' ' || c == '(' || c == ')' || c == '~' || c == '"' || c == ':' || c == '_' ==> !r,
{
    c.is_alphabetic()
}

/// Relies on `char::is_alphanumeric` (`Alphabetic` or `Numeric`).
#[verifier::external_body]
fn is_alphanumeric(c: char) -> (r: bool)
    ensures
        r == alphanumeric(c),
        ('a' <= c <= 'z') || ('A' <= c <= 'Z') || ('0' <= c <= '9') ==> r,
        c == ' ' || c == '(' || c == ')' || c == '~' || c == '"' || c == ':' || c == '_' ==> !r,
{
    c.is_alphanumeric()
}

/// Where and why a query could not be read.
pub struct ParseError {
    pub position: usize,
    pub message: String,
}

/// A character that may stand in an unquoted word.
pub open spec fn word_char(c: char) -> bool {
    !whitespace(c) && c != '(' && c != ')' && c != '~'
}

/// A character that may follow the first letter of a field name.
pub open spec fn field_char(c: char) -> bool {
    alphanumeric(c) || c == '_'
}

/// The reserved words `AND` and `OR`.
pub open spec fn reserved(w: Seq<char>) -> bool {
    w == seq!['A', 'N', 'D'] || w == seq!['O', 'R']
}

/// The end of the run of word characters that starts at `i`.
pub open spec fn word_end(s: Seq<char>, i: int) -> int
    decreases s.len() - i,
{
    if 0 <= i < s.len() && word_char(s[i]) {
        word_end(s, i + 1)
    } else {
        i
    }
}

/// The end of the run of whitespace that starts at `i`.
pub open spec fn spaces_end(s: Seq<char>, i: int) -> int
    decreases s.len() - i,
{
    if 0 <= i < s.len() && whitespace(s[i]) {
        spaces_end(s, i + 1)
    } else {
        i
    }
}

/// The end of the run of field characters that starts at `i`.
pub open spec fn field_end(s: Seq<char>, i: int) -> int
    decreases s.len() - i,
{
    if 0 <= i < s.len() && field_char(s[i]) {
        field_end(s, i + 1)
    } else {
        i
    }
}

/// The position of the first `"` at or after `i`, or the length of `s`.
pub open spec fn quote_end(s: Seq<char>, i: int) -> int
    decreases s.len() - i,
{
    if 0 <= i < s.len() && s[i] != '"' {
        quote_end(s, i + 1)
    } else {
        i
    }
}

/// A phrase at `pos`: its text and end, `Ok(None)` where none starts, or
/// `Err(pos)` for a quote that is not closed or encloses nothing.
pub open spec fn phrase_at(s: Seq<char>, pos: int) -> Result<Option<(Seq<char>, int)>, int> {
    if 0 <= pos < s.len() && s[pos] == '"' {
        let q = quote_end(s, pos + 1);
        if q < s.len() && q > pos + 1 {
            Ok(Some((s.subrange(pos + 1, q), q + 1)))
        } else {
            Err(pos)
        }
    } else {
        let end = word_end(s, pos);
        if end > pos && !reserved(s.subrange(pos, end)) {
            Ok(Some((s.subrange(pos, end), end)))
        } else {
            Ok(None)
        }
    }
}

/// A field name and its colon at `pos`: the name and the position after
/// the colon.
pub open spec fn field_at(s: Seq<char>, pos: int) -> Option<(Seq<char>, int)> {
    if 0 <= pos < s.len() && alphabetic(s[pos]) {
        let end = field_end(s, pos + 1);
        if end < s.len() && s[end] == ':' {
            Some((s.subrange(pos, end), end + 1))
        } else {
            None
        }
    } else {
        None
    }
}

/// The value of a decimal digit.
pub open spec fn digit_of(c: char) -> Option<u8> {
    if c == '0' { Some(0u8) }
    else if c == '1' { Some(1u8) }
    else if c == '2' { Some(2u8) }
    else if c == '3' { Some(3u8) }
    else if c == '4' { Some(4u8) }
    else if c == '5' { Some(5u8) }
    else if c == '6' { Some(6u8) }
    else if c == '7' { Some(7u8) }
    else if c == '8' { Some(8u8) }
    else if c == '9' { Some(9u8) }
    else { None }
}

/// An edit distance `~d` at `pos`.
pub open spec fn distance_at(s: Seq<char>, pos: int) -> Option<u8> {
    if 0 <= pos && pos + 1 < s.len() && s[pos] == '~' {
        digit_of(s[pos + 1])
    } else {
        None
    }
}

/// A term with a field and a distance at `pos`.
pub open spec fn field_distance_term(s: Seq<char>, pos: int) -> Option<(Filter, int)> {
    match field_at(s, pos) {
        Some((f, after)) => match phrase_at(s, after) {
            Ok(Some((ph, end))) => match distance_at(s, end) {
                Some(d) => Some((Filter { field_name: Some(f), phrase: ph, levenshtein: Some(d) }, end + 2)),
                None => None,
            },
            _ => None,
        },
        None => None,
    }
}

/// A term with a distance and no field at `pos`.
pub open spec fn distance_term(s: Seq<char>, pos: int) -> Option<(Filter, int)> {
    match phrase_at(s, pos) {
        Ok(Some((ph, end))) => match distance_at(s, end) {
            Some(d) => Some((Filter { field_name: None, phrase: ph, levenshtein: Some(d) }, end + 2)),
            None => None,
        },
        _ => None,
    }
}

/// A term with a field and no distance at `pos`.
pub open spec fn field_term(s: Seq<char>, pos: int) -> Option<(Filter, int)> {
    match field_at(s, pos) {
        Some((f, after)) => match phrase_at(s, after) {
            Ok(Some((ph, end))) => Some((Filter { field_name: Some(f), phrase: ph, levenshtein: None }, end)),
            _ => None,
        },
        None => None,
    }
}

/// The term at `pos`: the first of the four forms that fits; `Ok(None)`
/// where none starts there, `Err(p)` for an unclosed quote at `p`.
pub open spec fn term_at(s: Seq<char>, pos: int) -> Result<Option<(Filter, int)>, int> {
    if field_distance_term(s, pos) is Some {
        Ok(field_distance_term(s, pos))
    } else if distance_term(s, pos) is Some {
        Ok(distance_term(s, pos))
    } else if field_term(s, pos) is Some {
        Ok(field_term(s, pos))
    } else {
        match phrase_at(s, pos) {
            Ok(Some((ph, end))) => Ok(Some((Filter { field_name: None, phrase: ph, levenshtein: None }, end))),
            Ok(None) => Ok(None),
            Err(p) => Err(p),
        }
    }
}

/// An operator with at least one whitespace character on each side at
/// `pos`, and the position after it.
pub open spec fn operator_at(s: Seq<char>, pos: int) -> Option<(Operator, int)> {
    let p = spaces_end(s, pos);
    if p == pos {
        None
    } else if p + 3 <= s.len() && s[p] == 'A' && s[p + 1] == 'N' && s[p + 2] == 'D' {
        let q = spaces_end(s, p + 3);
        if q == p + 3 { None } else { Some((Operator::And, q)) }
    } else if p + 2 <= s.len() && s[p] == 'O' && s[p + 1] == 'R' {
        let q = spaces_end(s, p + 2);
        if q == p + 2 { None } else { Some((Operator::Or, q)) }
    } else {
        None
    }
}

/// The atom made of a run of terms: one term stands alone, several form an
/// OR clause.
pub open spec fn run_query(lits: Seq<Query>) -> Query {
    if lits.len() == 1 {
        lits[0]
    } else {
        Query::Clause(Operator::Or, lits)
    }
}

/// A run of terms continued from `end`, where `lits` were read already:
/// each further term follows a single whitespace character.
pub open spec fn more_terms(s: Seq<char>, lits: Seq<Query>, end: int) -> (Query, int)
    decreases s.len() - end, 1nat,
{
    if 0 <= end < s.len() && whitespace(s[end]) {
        match term_at(s, end + 1) {
            Ok(Some((g, next))) => if end < next <= s.len() {
                more_terms(s, lits.push(Query::Leaf(g)), next)
            } else {
                (run_query(lits), end)
            },
            _ => (run_query(lits), end),
        }
    } else {
        (run_query(lits), end)
    }
}

/// The atom at `pos` and its end, or the position of the error.
pub open spec fn atom_at(s: Seq<char>, pos: int) -> Result<(Query, int), int>
    decreases s.len() - pos, 0nat,
{
    if 0 <= pos < s.len() && s[pos] == '(' {
        match query_at(s, pos + 1) {
            Ok((q, end)) => if end < s.len() && s[end] == ')' {
                Ok((q, end + 1))
            } else {
                Err(end)
            },
            Err(e) => Err(e),
        }
    } else {
        match term_at(s, pos) {
            Err(e) => Err(e),
            Ok(None) => Err(pos),
            Ok(Some((f, end))) => if pos < end <= s.len() {
                Ok(more_terms(s, seq![Query::Leaf(f)], end))
            } else {
                Err(pos)
            },
        }
    }
}

/// The chain of atoms joined by operators after `left`, which ends at
/// `end`.
pub open spec fn chain_from(s: Seq<char>, left: Query, end: int) -> Result<(Query, int), int>
    decreases s.len() - end, 2nat,
{
    match operator_at(s, end) {
        None => Ok((left, end)),
        Some((op, after)) => if end < after <= s.len() {
            match atom_at(s, after) {
                Err(e) => Err(e),
                Ok((right, next)) => if after <= next <= s.len() {
                    chain_from(s, combined(left, op, right), next)
                } else {
                    Err(after)
                },
            }
        } else {
            Ok((left, end))
        },
    }
}

/// The query that starts at `pos` and its end, or the position of the
/// error.
pub open spec fn query_at(s: Seq<char>, pos: int) -> Result<(Query, int), int>
    decreases s.len() - pos, 3nat,
{
    match atom_at(s, pos) {
        Err(e) => Err(e),
        Ok((left, end)) => if pos <= end <= s.len() {
            chain_from(s, left, end)
        } else {
            Err(pos)
        },
    }
}

/// The tree of a whole query, or the position where reading it failed.
pub open spec fn parsed(s: Seq<char>) -> Result<Query, int> {
    match query_at(s, 0) {
        Ok((q, end)) => if end == s.len() {
            Ok(q)
        } else {
            Err(end)
        },
        Err(e) => Err(e),
    }
}

/// Whether `c` may stand in an unquoted word.
fn is_word_char(c: char) -> (r: bool)
    ensures
        r == word_char(c),
{
    !is_whitespace(c) && c != '(' && c != ')' && c != '~'
}

/// The end of the run of word characters that starts at `pos`.
fn scan_word(s: &Vec<char>, pos: usize) -> (end: usize)
    requires
        pos <= s@.len(),
    ensures
        end == word_end(s@, pos as int),
        pos <= end <= s@.len(),
{
    let mut end = pos;
    while end < s.len() && is_word_char(s[end])
        invariant
            pos <= end <= s@.len(),
            word_end(s@, pos as int) == word_end(s@, end as int),
        decreases s@.len() - end,
    {
        end = end + 1;
    }
    end
}

/// The end of the run of whitespace that starts at `pos`.
fn scan_spaces(s: &Vec<char>, pos: usize) -> (end: usize)
    requires
        pos <= s@.len(),
    ensures
        end == spaces_end(s@, pos as int),
        pos <= end <= s@.len(),
{
    let mut end = pos;
    while end < s.len() && is_whitespace(s[end])
        invariant
            pos <= end <= s@.len(),
            spaces_end(s@, pos as int) == spaces_end(s@, end as int),
        decreases s@.len() - end,
    {
        end = end + 1;
    }
    end
}

/// Whether `s[a..b]` is a reserved word.
fn is_reserved(s: &Vec<char>, a: usize, b: usize) -> (r: bool)
    requires
        a <= b <= s@.len(),
    ensures
        r == reserved(s@.subrange(a as int, b as int)),
{
    let r = if b - a == 3 {
        s[a] == 'A' && s[a + 1] == 'N' && s[a + 2] == 'D'
    } else if b - a == 2 {
        s[a] == 'O' && s[a + 1] == 'R'
    } else {
        false
    };
    proof {
        let w = s@.subrange(a as int, b as int);
        let and_word = seq!['A', 'N', 'D'];
        let or_word = seq!['O', 'R'];
        assert(and_word.len() == 3 && and_word[0] == 'A' && and_word[1] == 'N' && and_word[2] == 'D');
        assert(or_word.len() == 2 && or_word[0] == 'O' && or_word[1] == 'R');
        if r {
            if b - a == 3 {
                assert(w =~= and_word);
            } else {
                assert(w =~= or_word);
            }
        } else {
            if w == and_word {
                assert(w[0] == 'A' && w[1] == 'N' && w[2] == 'D');
            }
            if w == or_word {
                assert(w[0] == 'O' && w[1] == 'R');
            }
        }
    }
    r
}

/// The model of a phrase result.
pub open spec fn phrase_view(r: Result<Option<(String, usize)>, usize>) -> Result<Option<(Seq<char>, int)>, int> {
    match r {
        Ok(Some((t, end))) => Ok(Some((t@, end as int))),
        Ok(None) => Ok(None),
        Err(p) => Err(p as int),
    }
}

/// A phrase: `Ok(Some((text, end)))`, `Ok(None)` where no phrase starts
/// at `pos`, or `Err(pos)` for a quote that is not closed or encloses
/// nothing.
fn term_val(s: &Vec<char>, pos: usize) -> (r: Result<Option<(String, usize)>, usize>)
    requires
        pos <= s@.len(),
    ensures
        phrase_view(r) == phrase_at(s@, pos as int),
        r matches Ok(Some((t, end))) ==> pos < end <= s@.len() && t@.len() > 0,
{
    if pos < s.len() && s[pos] == '"' {
        let mut q = pos + 1;
        while q < s.len() && s[q] != '"'
            invariant
                pos < q <= s@.len(),
                quote_end(s@, pos + 1) == quote_end(s@, q as int),
            decreases s@.len() - q,
        {
            q = q + 1;
        }
        if q < s.len() && q > pos + 1 {
            Ok(Some((string_of(&s.as_slice()[pos + 1..q]), q + 1)))
        } else {
            Err(pos)
        }
    } else {
        let end = scan_word(s, pos);
        if end > pos && !is_reserved(s, pos, end) {
            Ok(Some((string_of(&s.as_slice()[pos..end]), end)))
        } else {
            Ok(None)
        }
    }
}

/// The model of a field result.
pub open spec fn field_view(r: Option<(String, usize)>) -> Option<(Seq<char>, int)> {
    match r {
        Some((f, end)) => Some((f@, end as int)),
        None => None,
    }
}

/// A field name and its colon: the name and the position after the colon.
fn field_prefix(s: &Vec<char>, pos: usize) -> (r: Option<(String, usize)>)
    requires
        pos <= s@.len(),
    ensures
        field_view(r) == field_at(s@, pos as int),
        r matches Some((f, end)) ==> pos + 2 <= end <= s@.len() && f@.len() > 0,
{
    if pos < s.len() && is_alphabetic(s[pos]) {
        let mut end = pos + 1;
        while end < s.len() && (is_alphanumeric(s[end]) || s[end] == '_')
            invariant
                pos < end <= s@.len(),
                field_end(s@, pos + 1) == field_end(s@, end as int),
            decreases s@.len() - end,
        {
            end = end + 1;
        }
        if end < s.len() && s[end] == ':' {
            Some((string_of(&s.as_slice()[pos..end]), end + 1))
        } else {
            None
        }
    } else {
        None
    }
}

/// The value of a decimal digit.
fn digit_value(c: char) -> (r: Option<u8>)
    ensures
        r == digit_of(c),
        r matches Some(d) ==> d <= 9,
{
    if c == '0' { Some(0) }
    else if c == '1' { Some(1) }
    else if c == '2' { Some(2) }
    else if c == '3' { Some(3) }
    else if c == '4' { Some(4) }
    else if c == '5' { Some(5) }
    else if c == '6' { Some(6) }
    else if c == '7' { Some(7) }
    else if c == '8' { Some(8) }
    else if c == '9' { Some(9) }
    else { None }
}

/// An edit distance `~d` at `pos`.
fn distance_suffix(s: &Vec<char>, pos: usize) -> (r: Option<u8>)
    requires
        pos <= s@.len(),
    ensures
        r == distance_at(s@, pos as int),
        r matches Some(d) ==> d <= 9 && pos + 2 <= s@.len(),
{
    let n = s.len();
    if n - pos >= 2 && s[pos] == '~' {
        digit_value(s[pos + 1])
    } else {
        None
    }
}

/// The model of a term result.
pub open spec fn term_view(r: Result<Option<(UserFilter, usize)>, ParseError>) -> Result<Option<(Filter, int)>, int> {
    match r {
        Ok(Some((f, end))) => Ok(Some((f@, end as int))),
        Ok(None) => Ok(None),
        Err(e) => Err(e.position as int),
    }
}

/// A term at `pos`: `Ok(None)` where none starts there.
fn user_literal(s: &Vec<char>, pos: usize) -> (r: Result<Option<(UserFilter, usize)>, ParseError>)
    requires
        pos <= s@.len(),
    ensures
        term_view(r) == term_at(s@, pos as int),
        r matches Ok(Some((f, end))) ==> pos < end <= s@.len() && well_formed(Query::Leaf(f@)),
        r matches Err(e) ==> e.position <= s@.len(),
{
    let n = s.len();
    if let Some((field, after)) = field_prefix(s, pos) {
        if let Ok(Some((phrase, end))) = term_val(s, after) {
            if let Some(d) = distance_suffix(s, end) {
                return Ok(Some((UserFilter { field_name: Some(field), phrase, levenshtein: Some(d) }, end + 2)));
            }
        }
    }
    if let Ok(Some((phrase, end))) = term_val(s, pos) {
        if let Some(d) = distance_suffix(s, end) {
            return Ok(Some((UserFilter { field_name: None, phrase, levenshtein: Some(d) }, end + 2)));
        }
    }
    if let Some((field, after)) = field_prefix(s, pos) {
        if let Ok(Some((phrase, end))) = term_val(s, after) {
            return Ok(Some((UserFilter { field_name: Some(field), phrase, levenshtein: None }, end)));
        }
    }
    match term_val(s, pos) {
        Ok(Some((phrase, end))) => Ok(Some((UserFilter { field_name: None, phrase, levenshtein: None }, end))),
        Ok(None) => Ok(None),
        Err(p) => Err(ParseError { position: p, message: String::from_str("unterminated quote") }),
    }
}

/// The model of an operator result.
pub open spec fn operator_view(r: Option<(Operator, usize)>) -> Option<(Operator, int)> {
    match r {
        Some((op, end)) => Some((op, end as int)),
        None => None,
    }
}

/// An operator with the whitespace around it, and the position after it.
fn parse_operator(s: &Vec<char>, pos: usize) -> (r: Option<(Operator, usize)>)
    requires
        pos <= s@.len(),
    ensures
        operator_view(r) == operator_at(s@, pos as int),
        r matches Some((op, end)) ==> pos < end <= s@.len(),
{
    let n = s.len();
    let p = scan_spaces(s, pos);
    if p == pos {
        return None;
    }
    let (op, after) = if n - p >= 3 && s[p] == 'A' && s[p + 1] == 'N' && s[p + 2] == 'D' {
        (Operator::And, p + 3)
    } else if n - p >= 2 && s[p] == 'O' && s[p + 1] == 'R' {
        (Operator::Or, p + 2)
    } else {
        return None;
    };
    let q = scan_spaces(s, after);
    if q == after {
        None
    } else {
        Some((op, q))
    }
}

/// The model of a query result.
pub open spec fn query_view(r: Result<(UserAST, usize), ParseError>) -> Result<(Query, int), int> {
    match r {
        Ok((q, end)) => Ok((q.model(), end as int)),
        Err(e) => Err(e.position as int),
    }
}

/// An atom: a query in parentheses, or a run of terms separated by single
/// whitespace characters; a run of several terms is an OR clause. Where no
/// term starts, the query fails.
fn parse_leaf(s: &Vec<char>, pos: usize) -> (r: Result<(UserAST, usize), ParseError>)
    requires
        pos <= s@.len(),
    ensures
        query_view(r) == atom_at(s@, pos as int),
        r matches Ok((q, end)) ==> pos <= end <= s@.len() && well_formed(q.model()),
        r matches Err(e) ==> e.position <= s@.len(),
    decreases s@.len() - pos, 0nat,
{
    if pos < s.len() && s[pos] == '(' {
        match parse_expr(s, pos + 1) {
            Ok((inner, end)) => {
                if end < s.len() && s[end] == ')' {
                    Ok((inner, end + 1))
                } else {
                    Err(ParseError { position: end, message: String::from_str("expected a closing parenthesis") })
                }
            },
            Err(e) => Err(e),
        }
    } else {
        match user_literal(s, pos) {
            Err(e) => Err(e),
            Ok(None) => Err(ParseError { position: pos, message: String::from_str("expected a term") }),
            Ok(Some((f, first_end))) => {
                let ghost fv = f@;
                let mut lits: Vec<UserAST> = Vec::new();
                lits.push(f.into_ast());
                let mut end = first_end;
                proof {
                    crate::query::lemma_models_all(lits@);
                    assert(models(lits@, lits@.len() as int) =~= seq![Query::Leaf(fv)]);
                }
                let mut stopped = false;
                while !stopped && end < s.len() && is_whitespace(s[end])
                    invariant
                        pos < end <= s@.len(),
                        lits@.len() >= 1,
                        forall|i: int| 0 <= i < lits@.len() ==> well_formed(#[trigger] lits@[i].model()),
                        more_terms(s@, models(lits@, lits@.len() as int), end as int) == more_terms(s@, seq![Query::Leaf(fv)], first_end as int),
                        stopped ==> more_terms(s@, models(lits@, lits@.len() as int), end as int) == (run_query(models(lits@, lits@.len() as int)), end as int),
                    decreases s@.len() - end, if stopped { 0int } else { 1int },
                {
                    match user_literal(s, end + 1) {
                        Ok(Some((g, next))) => {
                            let ghost before = lits@;
                            let ghost gv = g@;
                            proof {
                                crate::query::lemma_models_all(before);
                            }
                            lits.push(g.into_ast());
                            proof {
                                crate::query::lemma_models_all(lits@);
                                assert(models(lits@, lits@.len() as int) =~= models(before, before.len() as int).push(Query::Leaf(gv)));
                            }
                            end = next;
                        },
                        _ => {
                            stopped = true;
                        },
                    }
                }
                proof {
                    crate::query::lemma_models_all(lits@);
                }
                if lits.len() == 1 {
                    let q = lits.pop().unwrap();
                    Ok((q, end))
                } else {
                    let r = UserAST::Clause(Operator::Or, lits);
                    Ok((r, end))
                }
            },
        }
    }
}

/// Atoms joined by operators, left to right.
fn parse_expr(s: &Vec<char>, pos: usize) -> (r: Result<(UserAST, usize), ParseError>)
    requires
        pos <= s@.len(),
    ensures
        query_view(r) == query_at(s@, pos as int),
        r matches Ok((q, end)) ==> pos <= end <= s@.len() && well_formed(q.model()),
        r matches Err(e) ==> e.position <= s@.len(),
    decreases s@.len() - pos, 1nat,
{
    let (mut left, mut end) = match parse_leaf(s, pos) {
        Ok(x) => x,
        Err(e) => {
            return Err(e);
        },
    };
    loop
        invariant
            pos <= end <= s@.len(),
            well_formed(left.model()),
            query_at(s@, pos as int) == chain_from(s@, left.model(), end as int),
        decreases s@.len() - end,
    {
        match parse_operator(s, end) {
            None => {
                return Ok((left, end));
            },
            Some((op, after)) => {
                match parse_leaf(s, after) {
                    Ok((right, next)) => {
                        proof {
                            crate::query::lemma_combined_well_formed(left.model(), op, right.model());
                        }
                        left = combine(left, op, right);
                        end = next;
                    },
                    Err(e) => {
                        return Err(e);
                    },
                }
            },
        }
    }
}

/// Reads a whole query into its tree; fails where a part of the text is
/// left that the grammar does not take.
pub fn parse(query: &str) -> (r: Result<UserAST, ParseError>)
    ensures
        match r {
            Ok(q) => parsed(query@) == Ok::<Query, int>(q.model()),
            Err(e) => parsed(query@) == Err::<Query, int>(e.position as int),
        },
        r matches Ok(q) ==> well_formed(q.model()),
        r matches Err(e) ==> e.position <= query@.len(),
{
    let s = chars_of(query);
    match parse_expr(&s, 0) {
        Ok((ast, end)) => {
            if end == s.len() {
                Ok(ast)
            } else {
                Err(ParseError { position: end, message: String::from_str("unexpected input") })
            }
        },
        Err(e) => Err(e),
    }
}

} // verus!
