//! Attribute paths: file names derived from a path and the chain of levels
//! from a text value up to its anchor document.
//!
//! A path is a dot-separated list of attribute names; a name that ends in
//! `[]` descends into each element of an array and marks a level boundary.

use vstd::prelude::*;
use crate::text::{chars_eq, chars_of, string_of};

verus! {

/// `s[i..i+2]` is an array marker `[]` that closes a path segment, i.e. it
/// is followed by a `.` or by the end of the path.
pub open spec fn marker_ends_segment(s: Seq<char>, i: int) -> bool {
    &&& 0 <= i
    &&& i + 1 < s.len()
    &&& s[i] == '['
    &&& s[i + 1] == ']'
    &&& (i + 2 == s.len() || s[i + 2] == '.')
}

/// `s[i..i+2]` is the two characters `[]`.
pub open spec fn marker_at(s: Seq<char>, i: int) -> bool {
    0 <= i && i + 1 < s.len() && s[i] == '[' && s[i + 1] == ']'
}

/// The number of occurrences of `[]` that start before position `n`.
pub open spec fn markers_before(s: Seq<char>, n: int) -> nat
    decreases n,
{
    if n <= 0 {
        0
    } else {
        markers_before(s, n - 1) + if marker_at(s, n - 1) { 1nat } else { 0nat }
    }
}

/// The number of array markers `[]` in a path; two markers never overlap.
pub open spec fn level_of(s: Seq<char>) -> nat {
    markers_before(s, s.len() as int)
}

/// The path from position `i` on, with the trailing `[]` of every segment
/// removed.
pub open spec fn strip_markers_from(s: Seq<char>, i: int) -> Seq<char>
    decreases s.len() - i,
{
    if i >= s.len() || i < 0 {
        seq![]
    } else if marker_ends_segment(s, i) {
        strip_markers_from(s, i + 2)
    } else {
        seq![s[i]] + strip_markers_from(s, i + 1)
    }
}

/// The path with the trailing `[]` of every segment removed.
pub open spec fn without_markers(s: Seq<char>) -> Seq<char> {
    strip_markers_from(s, 0)
}

/// The prefixes of `s` that end in an array marker closing a segment, for
/// markers at or after position `i`, shortest first.
pub open spec fn array_prefixes_from(s: Seq<char>, i: int) -> Seq<Seq<char>>
    decreases s.len() - i,
{
    if i >= s.len() || i < 0 {
        seq![]
    } else if marker_ends_segment(s, i) {
        seq![s.subrange(0, i + 2)] + array_prefixes_from(s, i + 1)
    } else {
        array_prefixes_from(s, i + 1)
    }
}

/// The levels to join through, from the outermost array down to the text
/// index of the path itself.
pub open spec fn steps_to_anchor(s: Seq<char>) -> Seq<Seq<char>> {
    array_prefixes_from(s, 0).push(s + ".textindex"@)
}

/// The prefixes of `s` that end right before a `.` at or after position `i`.
pub open spec fn dot_prefixes_from(s: Seq<char>, i: int) -> Seq<Seq<char>>
    decreases s.len() - i,
{
    if i >= s.len() || i < 0 {
        seq![]
    } else if s[i] == '.' {
        seq![s.subrange(0, i)] + dot_prefixes_from(s, i + 1)
    } else {
        dot_prefixes_from(s, i + 1)
    }
}

/// Every prefix of the path that ends at a segment boundary, shortest first,
/// the whole path last.
pub open spec fn all_steps(s: Seq<char>) -> Seq<Seq<char>> {
    dot_prefixes_from(s, 0).push(s)
}

/// The views of a list of strings.
pub open spec fn views(v: Seq<String>) -> Seq<Seq<char>> {
    v.map_values(|x: String| x@)
}

/// Appends `suffix` to `path`.
pub fn concat(path: &str, suffix: &str) -> (r: String)
    ensures
        r@ == path@ + suffix@,
{
    String::from_str(path).concat(suffix)
}

/// The file `path` inside the directory `folder`.
pub fn get_file_path(folder: &str, path: &str) -> (r: String)
    ensures
        r@ == folder@ + "/"@ + path@,
{
    String::from_str(folder).concat("/").concat(path)
}

/// `path` with each of two suffixes appended.
pub fn concat_tuple(path: &str, suffix: &str, suffix2: &str) -> (r: (String, String))
    ensures
        r.0@ == path@ + suffix@,
        r.1@ == path@ + suffix2@,
{
    (concat(path, suffix), concat(path, suffix2))
}

/// The file name stem of a path; the text index of a path carries the
/// `.textindex` suffix.
pub fn get_file_path_name(path_to_anchor: &str, is_text_index_part: bool) -> (r: String)
    ensures
        r@ == if is_text_index_part { path_to_anchor@ + ".textindex"@ } else { path_to_anchor@ },
{
    if is_text_index_part {
        concat(path_to_anchor, ".textindex")
    } else {
        String::from_str(path_to_anchor)
    }
}

/// The two column names of the boost index of a path: the sub-object ids
/// and the values.
pub fn boost_path(path: &str) -> (r: (String, String))
    ensures
        r.0@ == path@ + ".boost.subObjId"@,
        r.1@ == path@ + ".boost.value"@,
{
    concat_tuple(path, ".boost.subObjId", ".boost.value")
}

/// The nesting level of a path: how many array markers `[]` it holds.
pub fn get_level(path: &str) -> (r: u32)
    ensures
        r == level_of(path@) as u32,
{
    let s = chars_of(path);
    let mut count: usize = 0;
    let mut i: usize = 0;
    while i < s.len()
        invariant
            s@ == path@,
            i <= s.len(),
            count == markers_before(s@, i as int),
            count <= i,
        decreases s.len() - i,
    {
        if i + 1 < s.len() && s[i] == '[' && s[i + 1] == ']' {
            count = count + 1;
        }
        i = i + 1;
    }
    count as u32
}

/// The path with the trailing `[]` of each segment removed
/// (`a[].b[]` becomes `a.b`).
pub fn remove_array_marker(path: &str) -> (r: String)
    ensures
        r@ == without_markers(path@),
{
    let s = chars_of(path);
    let mut out: Vec<char> = Vec::new();
    let mut i: usize = 0;
    while i < s.len()
        invariant
            s@ == path@,
            i <= s.len(),
            out@ + strip_markers_from(s@, i as int) == without_markers(s@),
        decreases s.len() - i,
    {
        if i + 1 < s.len() && s[i] == '[' && s[i + 1] == ']' && (i + 2 == s.len() || s[i + 2] == '.') {
            i = i + 2;
        } else {
            let ghost before = out@;
            out.push(s[i]);
            assert(out@ + strip_markers_from(s@, i + 1) == before + (seq![s@[i as int]] + strip_markers_from(s@, i + 1)));
            i = i + 1;
        }
    }
    string_of(out.as_slice())
}

/// The levels that a search on `path` joins through on its way to the
/// anchor: every prefix of the path that ends in an array marker, outermost
/// first, then the text index of the path itself.
pub fn get_steps_to_anchor(path: &str) -> (r: Vec<String>)
    ensures
        views(r@) == steps_to_anchor(path@),
{
    let s = chars_of(path);
    let mut paths: Vec<String> = Vec::new();
    let mut i: usize = 0;
    while i < s.len()
        invariant
            s@ == path@,
            i <= s.len(),
            views(paths@) + array_prefixes_from(s@, i as int) == array_prefixes_from(s@, 0),
        decreases s.len() - i,
    {
        if i + 1 < s.len() && s[i] == '[' && s[i + 1] == ']' && (i + 2 == s.len() || s[i + 2] == '.') {
            let step = string_of(&s.as_slice()[0..i + 2]);
            let ghost before = views(paths@);
            paths.push(step);
            assert(views(paths@) == before.push(s@.subrange(0, i + 2)));
            assert(views(paths@) + array_prefixes_from(s@, i + 1) == before + (seq![s@.subrange(0, i + 2)] + array_prefixes_from(s@, i + 1)));
        }
        i = i + 1;
    }
    let ghost before = views(paths@);
    paths.push(concat(path, ".textindex"));
    assert(views(paths@) == before.push(path@ + ".textindex"@));
    paths
}

/// Every prefix of `path` that ends at a segment boundary, shortest first,
/// and the whole path last (`a.b[]` gives `a`, `a.b[]`).
pub fn get_all_steps_to_anchor(path: &str) -> (r: Vec<String>)
    ensures
        views(r@) == all_steps(path@),
{
    let s = chars_of(path);
    let mut paths: Vec<String> = Vec::new();
    let mut i: usize = 0;
    while i < s.len()
        invariant
            s@ == path@,
            i <= s.len(),
            views(paths@) + dot_prefixes_from(s@, i as int) == dot_prefixes_from(s@, 0),
        decreases s.len() - i,
    {
        if s[i] == '.' {
            let step = string_of(&s.as_slice()[0..i]);
            let ghost before = views(paths@);
            paths.push(step);
            assert(views(paths@) == before.push(s@.subrange(0, i as int)));
            assert(views(paths@) + dot_prefixes_from(s@, i + 1) == before + (seq![s@.subrange(0, i as int)] + dot_prefixes_from(s@, i + 1)));
        }
        i = i + 1;
    }
    let ghost before = views(paths@);
    paths.push(String::from_str(path));
    assert(views(paths@) == before.push(path@));
    paths
}

/// The field name of a text index: the name with its ten-character
/// `.textindex` suffix taken off.
pub fn extract_field_name(field: &str) -> (r: String)
    requires
        field@.len() >= 10,
    ensures
        r@ == field@.subrange(0, field@.len() - 10),
{
    let s = chars_of(field);
    string_of(&s.as_slice()[0..s.len() - 10])
}

/// The segments of a path from a segment that starts at `start`, scanned
/// from position `i` on.
pub open spec fn segments_from(s: Seq<char>, start: int, i: int) -> Seq<Seq<char>>
    decreases s.len() - i,
{
    if i >= s.len() || i < start || start < 0 {
        seq![s.subrange(start, s.len() as int)]
    } else if s[i] == '.' {
        seq![s.subrange(start, i)] + segments_from(s, i + 1, i + 1)
    } else {
        segments_from(s, start, i + 1)
    }
}

/// A segment without its trailing `[]`.
pub open spec fn strip_marker(seg: Seq<char>) -> Seq<char> {
    if seg.len() >= 2 && seg[seg.len() - 2] == '[' && seg[seg.len() - 1] == ']' {
        seg.subrange(0, seg.len() - 2)
    } else {
        seg
    }
}

/// The last of the first `n` segments that is not `textindex` once
/// stripped of its marker, stripped.
pub open spec fn last_prop(segs: Seq<Seq<char>>, n: int) -> Option<Seq<char>>
    decreases n,
{
    if n <= 0 {
        None
    } else if strip_marker(segs[n - 1]) != "textindex"@ {
        Some(strip_marker(segs[n - 1]))
    } else {
        last_prop(segs, n - 1)
    }
}

/// The property name of a path: its last segment that is not `textindex`,
/// without the trailing `[]`.
pub open spec fn prop_name(s: Seq<char>) -> Option<Seq<char>> {
    last_prop(segments_from(s, 0, 0), segments_from(s, 0, 0).len() as int)
}

/// The segment `s[start..end]` without its trailing `[]`, and whether that
/// is `textindex`.
fn stripped_segment(s: &Vec<char>, start: usize, end: usize) -> (r: (Vec<char>, bool))
    requires
        start <= end <= s@.len(),
    ensures
        r.0@ == strip_marker(s@.subrange(start as int, end as int)),
        r.1 == (r.0@ == "textindex"@),
{
    let ghost seg = s@.subrange(start as int, end as int);
    let stop = if end - start >= 2 && s[end - 2] == '[' && s[end - 1] == ']' { end - 2 } else { end };
    let mut out: Vec<char> = Vec::new();
    let mut i = start;
    while i < stop
        invariant
            start <= i <= stop <= end <= s@.len(),
            out@ == s@.subrange(start as int, i as int),
        decreases stop - i,
    {
        out.push(s[i]);
        assert(out@ =~= s@.subrange(start as int, i + 1));
        i = i + 1;
    }
    assert(out@ =~= strip_marker(seg));
    let t = chars_of("textindex");
    let same = chars_eq(&out, &t);
    (out, same)
}

/// The property name of a path: the last segment that is not
/// `textindex`, without its trailing `[]` (`meanings.ger[].textindex`
/// gives `ger`).
pub fn extract_prop_name(path: &str) -> (r: String)
    requires
        prop_name(path@) is Some,
    ensures
        r@ == prop_name(path@)->0,
{
    let s = chars_of(path);
    let ghost segs = segments_from(s@, 0, 0);
    let mut found: Option<Vec<char>> = None;
    let ghost mut emitted: Seq<Seq<char>> = seq![];
    let mut start: usize = 0;
    let mut i: usize = 0;
    while i < s.len()
        invariant
            s@ == path@,
            segs == segments_from(s@, 0, 0),
            start <= i <= s@.len(),
            segs == emitted + segments_from(s@, start as int, i as int),
            match found {
                Some(f) => last_prop(emitted, emitted.len() as int) == Some(f@),
                None => last_prop(emitted, emitted.len() as int) is None,
            },
        decreases s@.len() - i,
    {
        if s[i] == '.' {
            let (seg, is_textindex) = stripped_segment(&s, start, i);
            let ghost raw = s@.subrange(start as int, i as int);
            proof {
                assert(segments_from(s@, start as int, i as int) == seq![raw] + segments_from(s@, i + 1, i + 1));
                assert(emitted.push(raw) + segments_from(s@, i + 1, i + 1) =~= emitted + (seq![raw] + segments_from(s@, i + 1, i + 1)));
                assert(emitted.push(raw)[emitted.len() as int] == raw);
                assert forall|n: int| 0 <= n <= emitted.len() implies last_prop(emitted.push(raw), n) == last_prop(emitted, n) by {
                    lemma_last_prop_prefix(emitted, raw, n);
                }
            }
            if !is_textindex {
                found = Some(seg);
            }
            proof {
                emitted = emitted.push(raw);
            }
            start = i + 1;
        }
        i = i + 1;
    }
    let (seg, is_textindex) = stripped_segment(&s, start, s.len());
    let ghost raw = s@.subrange(start as int, s@.len() as int);
    proof {
        assert(segments_from(s@, start as int, i as int) == seq![raw]);
        assert(segs =~= emitted.push(raw));
        assert forall|n: int| 0 <= n <= emitted.len() implies last_prop(emitted.push(raw), n) == last_prop(emitted, n) by {
            lemma_last_prop_prefix(emitted, raw, n);
        }
        assert(emitted.push(raw)[emitted.len() as int] == raw);
    }
    if !is_textindex {
        string_of(seg.as_slice())
    } else {
        match found {
            Some(f) => string_of(f.as_slice()),
            None => String::new(),
        }
    }
}

proof fn lemma_last_prop_prefix(segs: Seq<Seq<char>>, x: Seq<char>, n: int)
    requires
        0 <= n <= segs.len(),
    ensures
        last_prop(segs.push(x), n) == last_prop(segs, n),
    decreases n,
{
    if n > 0 {
        assert(segs.push(x)[n - 1] == segs[n - 1]);
        lemma_last_prop_prefix(segs, x, n - 1);
    }
}

} // verus!
