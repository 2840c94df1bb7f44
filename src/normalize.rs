//! Text normalization: the form in which values are indexed and terms are
//! looked up.
//!
//! In order: parenthesized gender and number tags (`(f)`, `(m)`, `(n)`,
//! `(12)`) become a space; parentheses become spaces; `{`, `}`, `'`, `"` and
//! `“` are deleted; runs of two or more whitespace characters become one
//! space; `,`, `.`, `…`, `;`, `・`, `’` and `-` are deleted; the text is
//! lowercased and trimmed.

use vstd::prelude::*;

verus! {

/// Whether `regex::Regex::new` accepts the pattern `p`.
pub uninterp spec fn regex_valid(p: Seq<char>) -> bool;

/// What `regex::Regex::replace_all` returns for pattern `p`, text `s` and
/// replacement `rep` (in which `$name` refers to a capture group).
pub uninterp spec fn regex_replaced(p: Seq<char>, s: Seq<char>, rep: Seq<char>) -> Seq<char>;

/// What `str::to_lowercase` returns for `s`.
pub uninterp spec fn lower_of(s: Seq<char>) -> Seq<char>;

/// What `str::trim` returns for `s`.
pub uninterp spec fn trimmed_of(s: Seq<char>) -> Seq<char>;

/// Relies on `regex::Regex::new` and `regex::Regex::replace_all`: compiles
/// `pattern` and replaces every match in `text` by `rep`; `None` where the
/// pattern does not compile.
#[verifier::external_body]
fn replace_all(pattern: &str, text: &str, rep: &str) -> (r: Option<String>)
    ensures
        r is Some == regex_valid(pattern@),
        r matches Some(t) ==> t@ == regex_replaced(pattern@, text@, rep@),
{
    regex::Regex::new(pattern).ok().map(|re| re.replace_all(text, rep).into_owned())
}

/// Relies on `str::to_lowercase`: the lowercase mapping of each character.
#[verifier::external_body]
fn to_lowercase(s: &str) -> (r: String)
    ensures
        r@ == lower_of(s@),
{
    s.to_lowercase()
}

/// Relies on `str::trim`: `s` without leading and trailing whitespace.
#[verifier::external_body]
fn trim(s: &str) -> (r: String)
    ensures
        r@ == trimmed_of(s@),
{
    s.trim().to_string()
}

/// The pattern of gender and number tags.
pub const TAGS: &'static str = r"\(([fmn]|\d+)\)";

/// The pattern of parentheses.
pub const BRACES: &'static str = r"[\(\)]";

/// The pattern of quotes and curly braces.
pub const QUOTES: &'static str = "[{}'\"\u{201c}]";

/// The pattern of whitespace runs.
pub const SPACES: &'static str = r"\s\s+";

/// The pattern of punctuation.
pub const PUNCTUATION: &'static str = "[,.\u{2026};\u{30fb}\u{2019}-]";

/// One replacement step; a pattern that does not compile leaves the text
/// as it is.
pub open spec fn replaced_step(p: Seq<char>, s: Seq<char>, rep: Seq<char>) -> Seq<char> {
    if regex_valid(p) {
        regex_replaced(p, s, rep)
    } else {
        s
    }
}

/// The normalized form of `s`.
pub open spec fn normalized(s: Seq<char>) -> Seq<char> {
    let a = replaced_step(TAGS@, s, " "@);
    let b = replaced_step(BRACES@, a, " "@);
    let c = replaced_step(QUOTES@, b, ""@);
    let d = replaced_step(SPACES@, c, " "@);
    let e = replaced_step(PUNCTUATION@, d, ""@);
    trimmed_of(lower_of(e))
}

fn step(pattern: &str, text: String, rep: &str) -> (r: String)
    ensures
        r@ == replaced_step(pattern@, text@, rep@),
{
    match replace_all(pattern, text.as_str(), rep) {
        Some(t) => t,
        None => text,
    }
}

/// Normalizes a text for indexing and lookup.
pub fn normalize_text(text: &str) -> (r: String)
    ensures
        r@ == normalized(text@),
{
    let s = String::from_str(text);
    let s = step(TAGS, s, " ");
    let s = step(BRACES, s, " ");
    let s = step(QUOTES, s, "");
    let s = step(SPACES, s, " ");
    let s = step(PUNCTUATION, s, "");
    let lower = to_lowercase(s.as_str());
    trim(lower.as_str())
}

} // verus!
