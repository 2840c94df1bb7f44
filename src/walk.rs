//! Documents as values, and the walk of a path through them.
//!
//! Level 0 are the documents themselves; their ids are the anchor ids.
//! Every segment of the path that ends in `[]` opens a new level: the items
//! of the array that the segment names, reached from each element of the
//! level before through the plain segments in between. An element's id is
//! its position in its level, in document order, and its parent is the id
//! of the element it was reached from. The text values of the path are the
//! strings and numbers reached from the elements of the last level through
//! the plain segments after it, each with the id of that element.

use vstd::prelude::*;
use crate::util::{segments_from, strip_marker};
use crate::text::{chars_eq, chars_of, copy_chars};

verus! {

/// A JSON value.
pub enum JsonValue {
    Null,
    Bool(bool),
    Number(String),
    Text(String),
    Array(Vec<JsonValue>),
    Object(Vec<(String, JsonValue)>),
}

/// The value of the first entry named `name`.
pub open spec fn entry_value(entries: Seq<(String, JsonValue)>, name: Seq<char>, n: int) -> Option<JsonValue>
    decreases n,
{
    if n <= 0 {
        None
    } else {
        match entry_value(entries, name, n - 1) {
            Some(v) => Some(v),
            None => if entries[n - 1].0@ == name {
                Some(entries[n - 1].1)
            } else {
                None
            },
        }
    }
}

/// The value that the attribute names `names` lead to from `v`.
pub open spec fn navigate(v: JsonValue, names: Seq<Seq<char>>) -> Option<JsonValue>
    decreases names.len(),
{
    if names.len() == 0 {
        Some(v)
    } else {
        match v {
            JsonValue::Object(entries) => match entry_value(entries@, names[0], entries@.len() as int) {
                Some(child) => navigate(child, names.drop_first()),
                None => None,
            },
            _ => None,
        }
    }
}

/// A segment ends in the array marker `[]`.
pub open spec fn is_array_segment(seg: Seq<char>) -> bool {
    seg.len() >= 2 && seg[seg.len() - 2] == '[' && seg[seg.len() - 1] == ']'
}

/// The next level reached from the first `n` elements of `level`: the
/// items of the array that `names` lead to, each with the position of the
/// element it was reached from.
pub open spec fn expand(level: Seq<JsonValue>, names: Seq<Seq<char>>, n: int) -> (Seq<JsonValue>, Seq<u32>)
    decreases n,
{
    if n <= 0 {
        (seq![], seq![])
    } else {
        let (items, parents) = expand(level, names, n - 1);
        match navigate(level[n - 1], names) {
            Some(JsonValue::Array(a)) => (items + a@, parents + Seq::new(a@.len(), |k: int| (n - 1) as u32)),
            _ => (items, parents),
        }
    }
}

/// The state of the walk after the first `n` segments: the parents of each
/// level opened so far, the elements of the last level, and the plain names
/// since it.
pub open spec fn walk_state(docs: Seq<JsonValue>, segs: Seq<Seq<char>>, n: int) -> (Seq<Seq<u32>>, Seq<JsonValue>, Seq<Seq<char>>)
    decreases n,
{
    if n <= 0 {
        (seq![], docs, seq![])
    } else {
        let (levels, current, pending) = walk_state(docs, segs, n - 1);
        let seg = segs[n - 1];
        if is_array_segment(seg) {
            let (items, parents) = expand(current, pending.push(strip_marker(seg)), current.len() as int);
            (levels.push(parents), items, seq![])
        } else {
            (levels, current, pending.push(seg))
        }
    }
}

/// The text values (strings, and numbers in their JSON notation) reached
/// from the first `n` elements of `level` through `names`, each with the
/// position of its element.
pub open spec fn texts_of(level: Seq<JsonValue>, names: Seq<Seq<char>>, n: int) -> Seq<(Seq<char>, u32)>
    decreases n,
{
    if n <= 0 {
        seq![]
    } else {
        match navigate(level[n - 1], names) {
            Some(JsonValue::Text(t)) => texts_of(level, names, n - 1).push((t@, (n - 1) as u32)),
            Some(JsonValue::Number(t)) => texts_of(level, names, n - 1).push((t@, (n - 1) as u32)),
            _ => texts_of(level, names, n - 1),
        }
    }
}

/// The walk of a path: the parents of each level, and the text values
/// with the ids of their elements.
pub open spec fn walk_of(docs: Seq<JsonValue>, path: Seq<char>) -> (Seq<Seq<u32>>, Seq<(Seq<char>, u32)>) {
    let segs = segments_from(path, 0, 0);
    let (levels, current, pending) = walk_state(docs, segs, segs.len() as int);
    (levels, texts_of(current, pending, current.len() as int))
}

/// What a walk produced.
pub struct Walk {
    /// For each level opened by an array marker, the parent id of each of
    /// its elements.
    pub levels: Vec<Vec<u32>>,
    /// The text values with the ids of their elements.
    pub texts: Vec<(String, u32)>,
}

/// The views of the parents of each level.
pub open spec fn levels_view(l: Seq<Vec<u32>>) -> Seq<Seq<u32>> {
    l.map_values(|v: Vec<u32>| v@)
}

/// The views of the text values.
pub open spec fn texts_view(t: Seq<(String, u32)>) -> Seq<(Seq<char>, u32)> {
    t.map_values(|e: (String, u32)| (e.0@, e.1))
}

/// The value of the first entry named `name`.
fn lookup<'a>(entries: &'a Vec<(String, JsonValue)>, name: &Vec<char>) -> (r: Option<&'a JsonValue>)
    ensures
        match r {
            Some(v) => entry_value(entries@, name@, entries@.len() as int) == Some(*v),
            None => entry_value(entries@, name@, entries@.len() as int) is None,
        },
{
    let mut i: usize = 0;
    while i < entries.len()
        invariant
            i <= entries@.len(),
            entry_value(entries@, name@, i as int) is None,
        decreases entries@.len() - i,
    {
        let key = chars_of(entries[i].0.as_str());
        if chars_eq(&key, name) {
            proof {
                lemma_entry_value_found(entries@, name@, i as int + 1, entries@.len() as int);
            }
            return Some(&entries[i].1);
        }
        i = i + 1;
    }
    None
}

proof fn lemma_entry_value_found(entries: Seq<(String, JsonValue)>, name: Seq<char>, a: int, b: int)
    requires
        0 <= a <= b <= entries.len(),
        entry_value(entries, name, a) is Some,
    ensures
        entry_value(entries, name, b) == entry_value(entries, name, a),
    decreases b - a,
{
    if a < b {
        lemma_entry_value_found(entries, name, a, b - 1);
    }
}

/// The value that `names` lead to from `v`.
fn follow<'a>(v: &'a JsonValue, names: &Vec<Vec<char>>) -> (r: Option<&'a JsonValue>)
    ensures
        match r {
            Some(x) => navigate(*v, names@.map_values(|n: Vec<char>| n@)) == Some(*x),
            None => navigate(*v, names@.map_values(|n: Vec<char>| n@)) is None,
        },
{
    let ghost nv = names@.map_values(|n: Vec<char>| n@);
    let mut cur: &'a JsonValue = v;
    let mut i: usize = 0;
    assert(nv.subrange(0, nv.len() as int) =~= nv);
    while i < names.len()
        invariant
            nv == names@.map_values(|n: Vec<char>| n@),
            i <= names@.len(),
            navigate(*v, nv) == navigate(*cur, nv.subrange(i as int, nv.len() as int)),
        decreases names@.len() - i,
    {
        let ghost rest = nv.subrange(i as int, nv.len() as int);
        assert(rest.drop_first() =~= nv.subrange(i + 1, nv.len() as int));
        assert(rest[0] == names@[i as int]@);
        match cur {
            JsonValue::Object(entries) => {
                match lookup(entries, &names[i]) {
                    Some(child) => {
                        cur = child;
                    },
                    None => {
                        return None;
                    },
                }
            },
            _ => {
                return None;
            },
        }
        i = i + 1;
    }
    assert(nv.subrange(i as int, nv.len() as int) =~= Seq::<Seq<char>>::empty());
    Some(cur)
}

/// The chars of each segment of a path, split at `.`.
fn path_segments(path: &str) -> (r: Vec<Vec<char>>)
    ensures
        r@.map_values(|n: Vec<char>| n@) == segments_from(path@, 0, 0),
{
    let s = chars_of(path);
    let mut segs: Vec<Vec<char>> = Vec::new();
    let mut cur: Vec<char> = Vec::new();
    let mut start: usize = 0;
    let mut i: usize = 0;
    while i < s.len()
        invariant
            s@ == path@,
            start <= i <= s@.len(),
            cur@ == s@.subrange(start as int, i as int),
            segs@.map_values(|n: Vec<char>| n@) + segments_from(s@, start as int, i as int) == segments_from(s@, 0, 0),
        decreases s@.len() - i,
    {
        if s[i] == '.' {
            let ghost before = segs@.map_values(|n: Vec<char>| n@);
            let ghost piece = cur@;
            proof {
                assert(segments_from(s@, start as int, i as int) == seq![piece] + segments_from(s@, i + 1, i + 1));
            }
            segs.push(cur);
            cur = Vec::new();
            proof {
                assert(segs@.map_values(|n: Vec<char>| n@) =~= before.push(piece));
                assert(before.push(piece) + segments_from(s@, i + 1, i + 1) =~= before + (seq![piece] + segments_from(s@, i + 1, i + 1)));
                assert(cur@ =~= s@.subrange(i + 1, i + 1));
            }
            start = i + 1;
        } else {
            proof {
                assert(segments_from(s@, start as int, i as int) == segments_from(s@, start as int, i + 1));
            }
            cur.push(s[i]);
            assert(cur@ =~= s@.subrange(start as int, i + 1));
        }
        i = i + 1;
    }
    let ghost before = segs@.map_values(|n: Vec<char>| n@);
    let ghost piece = cur@;
    segs.push(cur);
    proof {
        assert(segments_from(s@, start as int, i as int) == seq![piece]);
        assert(segs@.map_values(|n: Vec<char>| n@) =~= before.push(piece));
    }
    segs
}

/// The values behind a list of references.
pub open spec fn derefs(v: Seq<&JsonValue>) -> Seq<JsonValue> {
    v.map_values(|r: &JsonValue| *r)
}

/// The views of a list of names.
pub open spec fn names_view(v: Seq<Vec<char>>) -> Seq<Seq<char>> {
    v.map_values(|n: Vec<char>| n@)
}

/// The next level: the items of the arrays that `names` lead to from each
/// element of `level`, with the positions of their elements.
fn expand_level<'a>(level: &Vec<&'a JsonValue>, names: &Vec<Vec<char>>) -> (r: (Vec<&'a JsonValue>, Vec<u32>))
    ensures
        (derefs(r.0@), r.1@) == expand(derefs(level@), names_view(names@), level@.len() as int),
{
    let ghost lv = derefs(level@);
    let ghost nv = names_view(names@);
    let mut items: Vec<&'a JsonValue> = Vec::new();
    let mut parents: Vec<u32> = Vec::new();
    let mut j: usize = 0;
    while j < level.len()
        invariant
            lv == derefs(level@),
            nv == names_view(names@),
            j <= level@.len(),
            (derefs(items@), parents@) == expand(lv, nv, j as int),
        decreases level@.len() - j,
    {
        assert(lv[j as int] == *level@[j as int]);
        match follow(level[j], names) {
            Some(JsonValue::Array(a)) => {
                let ghost before_items = derefs(items@);
                assert(before_items.len() == items@.len());
                let ghost before_parents = parents@;
                let mut k: usize = 0;
                while k < a.len()
                    invariant
                        k <= a@.len(),
                        items@.len() == before_items.len() + k,
                        derefs(items@) == before_items + a@.subrange(0, k as int),
                        parents@ == before_parents + Seq::new(k as nat, |x: int| j as u32),
                    decreases a@.len() - k,
                {
                    let ghost old_items = items@;
                    items.push(&a[k]);
                    parents.push(#[verifier::truncate] (j as u32));
                    assert forall|x: int| 0 <= x < items@.len() implies #[trigger] derefs(items@)[x] == (before_items + a@.subrange(0, k + 1))[x] by {
                        if x < old_items.len() {
                            assert(items@[x] == old_items[x]);
                            assert(derefs(old_items)[x] == *old_items[x]);
                        }
                    }
                    assert(derefs(items@) =~= before_items + a@.subrange(0, k + 1));
                    assert(parents@ =~= before_parents + Seq::new((k + 1) as nat, |x: int| j as u32));
                    k = k + 1;
                }
                assert(a@.subrange(0, a@.len() as int) =~= a@);
                assert(Seq::new(a@.len(), |x: int| j as u32) =~= Seq::new(k as nat, |x: int| j as u32));
            },
            _ => {},
        }
        j = j + 1;
    }
    (items, parents)
}

/// The text values that `names` lead to from each element of `level`.
fn level_texts(level: &Vec<&JsonValue>, names: &Vec<Vec<char>>) -> (r: Vec<(String, u32)>)
    ensures
        texts_view(r@) == texts_of(derefs(level@), names_view(names@), level@.len() as int),
{
    let ghost lv = derefs(level@);
    let ghost nv = names_view(names@);
    let mut out: Vec<(String, u32)> = Vec::new();
    let mut j: usize = 0;
    while j < level.len()
        invariant
            lv == derefs(level@),
            nv == names_view(names@),
            j <= level@.len(),
            texts_view(out@) == texts_of(lv, nv, j as int),
        decreases level@.len() - j,
    {
        assert(lv[j as int] == *level@[j as int]);
        match follow(level[j], names) {
            Some(JsonValue::Text(t)) => {
                let ghost before = texts_view(out@);
                out.push((t.clone(), #[verifier::truncate] (j as u32)));
                assert(texts_view(out@) =~= before.push((t@, j as u32)));
            },
            Some(JsonValue::Number(t)) => {
                let ghost before = texts_view(out@);
                out.push((t.clone(), #[verifier::truncate] (j as u32)));
                assert(texts_view(out@) =~= before.push((t@, j as u32)));
            },
            _ => {},
        }
        j = j + 1;
    }
    out
}

/// Whether a segment ends in the array marker, and its name without it.
fn split_marker(seg: &Vec<char>) -> (r: (bool, Vec<char>))
    ensures
        r.0 == is_array_segment(seg@),
        r.1@ == strip_marker(seg@),
{
    let n = seg.len();
    if n >= 2 && seg[n - 2] == '[' && seg[n - 1] == ']' {
        let mut out: Vec<char> = Vec::new();
        let mut i: usize = 0;
        while i < n - 2
            invariant
                n == seg@.len(),
                n >= 2,
                i <= n - 2,
                out@ == seg@.subrange(0, i as int),
            decreases n - 2 - i,
        {
            out.push(seg[i]);
            assert(out@ =~= seg@.subrange(0, i + 1));
            i = i + 1;
        }
        (true, out)
    } else {
        (false, copy_chars(seg))
    }
}

/// Walks `path` through the documents.
pub fn walk_path(docs: &Vec<JsonValue>, path: &str) -> (r: Walk)
    ensures
        levels_view(r.levels@) == walk_of(docs@, path@).0,
        texts_view(r.texts@) == walk_of(docs@, path@).1,
{
    let segs = path_segments(path);
    let ghost sv = names_view(segs@);
    let mut current: Vec<&JsonValue> = Vec::new();
    let mut d: usize = 0;
    while d < docs.len()
        invariant
            d <= docs@.len(),
            current@.len() == d,
            derefs(current@) == docs@.subrange(0, d as int),
        decreases docs@.len() - d,
    {
        let ghost old_current = current@;
        current.push(&docs[d]);
        assert forall|x: int| 0 <= x < current@.len() implies #[trigger] derefs(current@)[x] == docs@.subrange(0, d + 1)[x] by {
            if x < old_current.len() {
                assert(current@[x] == old_current[x]);
                assert(derefs(old_current)[x] == *old_current[x]);
            }
        }
        assert(derefs(current@) =~= docs@.subrange(0, d + 1));
        d = d + 1;
    }
    assert(docs@.subrange(0, docs@.len() as int) =~= docs@);
    let mut levels: Vec<Vec<u32>> = Vec::new();
    let mut pending: Vec<Vec<char>> = Vec::new();
    let mut n: usize = 0;
    while n < segs.len()
        invariant
            sv == names_view(segs@),
            sv == segments_from(path@, 0, 0),
            n <= segs@.len(),
            walk_state(docs@, sv, n as int) == (levels_view(levels@), derefs(current@), names_view(pending@)),
        decreases segs@.len() - n,
    {
        let (is_array, name) = split_marker(&segs[n]);
        assert(sv[n as int] == segs@[n as int]@);
        if is_array {
            let ghost pv = names_view(pending@);
            let mut names = pending;
            names.push(name);
            assert(names_view(names@) =~= pv.push(strip_marker(sv[n as int])));
            let (items, parents) = expand_level(&current, &names);
            let ghost before = levels_view(levels@);
            levels.push(parents);
            assert(levels_view(levels@) =~= before.push(parents@));
            current = items;
            pending = Vec::new();
            assert(names_view(pending@) =~= Seq::<Seq<char>>::empty());
        } else {
            let ghost pv = names_view(pending@);
            pending.push(copy_chars(&segs[n]));
            assert(names_view(pending@) =~= pv.push(sv[n as int]));
        }
        n = n + 1;
    }
    let texts = level_texts(&current, &pending);
    Walk { levels, texts }
}


/// The number of elements of the level that level `k` points into: the
/// documents for the first level.
pub open spec fn parent_level_len(docs: Seq<JsonValue>, levels: Seq<Seq<u32>>, k: int) -> int {
    if k == 0 {
        docs.len() as int
    } else {
        levels[k - 1].len() as int
    }
}

proof fn lemma_expand_parents(level: Seq<JsonValue>, names: Seq<Seq<char>>, n: int)
    requires
        0 <= n <= level.len(),
        level.len() <= u32::MAX,
    ensures
        expand(level, names, n).0.len() == expand(level, names, n).1.len(),
        forall|i: int| 0 <= i < expand(level, names, n).1.len() ==> (#[trigger] expand(level, names, n).1[i]) < n,
    decreases n,
{
    if n > 0 {
        lemma_expand_parents(level, names, n - 1);
        let (items, parents) = expand(level, names, n - 1);
        if let Some(JsonValue::Array(a)) = navigate(level[n - 1], names) {
            let extra = Seq::new(a@.len(), |k: int| (n - 1) as u32);
            let all = parents + extra;
            assert forall|i: int| 0 <= i < all.len() implies (#[trigger] all[i]) < n by {
                if i >= parents.len() {
                    assert(all[i] == extra[i - parents.len()]);
                }
            }
        }
    }
}

proof fn lemma_levels_prefix(docs: Seq<JsonValue>, segs: Seq<Seq<char>>, n: int, m: int)
    requires
        0 <= n <= m <= segs.len(),
    ensures
        walk_state(docs, segs, n).0.len() <= walk_state(docs, segs, m).0.len(),
        forall|k: int| 0 <= k < walk_state(docs, segs, n).0.len() ==> #[trigger] walk_state(docs, segs, n).0[k] == walk_state(docs, segs, m).0[k],
    decreases m - n,
{
    if n < m {
        lemma_levels_prefix(docs, segs, n, m - 1);
        let a = walk_state(docs, segs, m - 1).0;
        let b = walk_state(docs, segs, m).0;
        assert(b == a || b == a.push(b.last()));
        assert forall|k: int| 0 <= k < a.len() implies #[trigger] b[k] == a[k] by {}
    }
}

proof fn lemma_walk_state(docs: Seq<JsonValue>, segs: Seq<Seq<char>>, n: int, m: int)
    requires
        0 <= n <= m <= segs.len(),
        docs.len() <= u32::MAX,
        forall|k: int| 0 <= k < walk_state(docs, segs, m).0.len() ==> (#[trigger] walk_state(docs, segs, m).0[k]).len() <= u32::MAX,
    ensures
        walk_state(docs, segs, n).1.len() == if walk_state(docs, segs, n).0.len() == 0 {
            docs.len() as int
        } else {
            walk_state(docs, segs, n).0.last().len() as int
        },
        forall|k: int, i: int| 0 <= k < walk_state(docs, segs, n).0.len() && 0 <= i < walk_state(docs, segs, n).0[k].len()
            ==> (#[trigger] walk_state(docs, segs, n).0[k][i]) < parent_level_len(docs, walk_state(docs, segs, n).0, k),
    decreases n,
{
    if n > 0 {
        lemma_walk_state(docs, segs, n - 1, m);
        lemma_levels_prefix(docs, segs, n - 1, m);
        let (levels, current, pending) = walk_state(docs, segs, n - 1);
        let seg = segs[n - 1];
        if is_array_segment(seg) {
            let names = pending.push(strip_marker(seg));
            assert(current.len() <= u32::MAX) by {
                if levels.len() > 0 {
                    assert(levels[levels.len() - 1] == walk_state(docs, segs, m).0[levels.len() - 1]);
                }
            }
            lemma_expand_parents(current, names, current.len() as int);
            let nl = walk_state(docs, segs, n).0;
            assert(nl == levels.push(expand(current, names, current.len() as int).1));
            assert forall|k: int, i: int| 0 <= k < nl.len() && 0 <= i < nl[k].len()
                implies (#[trigger] nl[k][i]) < parent_level_len(docs, nl, k) by {
                if k < levels.len() {
                    assert(nl[k] == levels[k]);
                    if k > 0 {
                        assert(nl[k - 1] == levels[k - 1]);
                    }
                } else {
                    if k > 0 {
                        assert(nl[k - 1] == levels[k - 1]);
                    }
                }
            }
        }
    }
}

/// Joining up a walk always ends at a document: the parents in the first
/// level are document positions, each later level points into the level
/// before it, and each text value belongs to an element of the last level
/// (a document where the path has no array). Ids are `u32`, so each level
/// is taken to fit in one.
pub proof fn lemma_walk_joins_to_documents(docs: Seq<JsonValue>, path: Seq<char>)
    requires
        docs.len() <= u32::MAX,
        forall|k: int| 0 <= k < walk_of(docs, path).0.len() ==> (#[trigger] walk_of(docs, path).0[k]).len() <= u32::MAX,
    ensures
        forall|k: int, i: int| 0 <= k < walk_of(docs, path).0.len() && 0 <= i < walk_of(docs, path).0[k].len()
            ==> (#[trigger] walk_of(docs, path).0[k][i]) < parent_level_len(docs, walk_of(docs, path).0, k),
        forall|i: int| 0 <= i < walk_of(docs, path).1.len() ==> (#[trigger] walk_of(docs, path).1[i]).1 < parent_level_len(docs,
            walk_of(docs, path).0, walk_of(docs, path).0.len() as int),
{
    let segs = segments_from(path, 0, 0);
    let n = segs.len() as int;
    assert(walk_of(docs, path).0 == walk_state(docs, segs, n).0);
    lemma_walk_state(docs, segs, n, n);
    let (levels, current, pending) = walk_state(docs, segs, n);
    assert(current.len() <= u32::MAX) by {
        if levels.len() > 0 {
            assert(levels[levels.len() - 1] == walk_of(docs, path).0[levels.len() - 1]);
        }
    }
    lemma_texts_ids(current, pending, current.len() as int);
}

proof fn lemma_texts_ids(level: Seq<JsonValue>, names: Seq<Seq<char>>, n: int)
    requires
        0 <= n <= level.len(),
        level.len() <= u32::MAX,
    ensures
        forall|i: int| 0 <= i < texts_of(level, names, n).len() ==> (#[trigger] texts_of(level, names, n)[i]).1 < n,
    decreases n,
{
    if n > 0 {
        lemma_texts_ids(level, names, n - 1);
        let prev = texts_of(level, names, n - 1);
        let cur = texts_of(level, names, n);
        assert forall|i: int| 0 <= i < cur.len() implies (#[trigger] cur[i]).1 < n by {
            if i < prev.len() {
                assert(cur[i] == prev[i]);
            }
        }
    }
}

} // verus!
