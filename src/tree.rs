//! The tree of attribute paths: each name maps to the tree of the paths
//! that continue it, or to a leaf where a path ends at it.

use vstd::prelude::*;

verus! {

/// A node of the path tree: the names that follow, each with its subtree,
/// or a leaf.
#[derive(Debug, PartialEq)]
pub enum NodeTree {
    Children(Vec<(String, NodeTree)>),
    IsLeaf,
}

impl NodeTree {
    /// The node with the given children.
    pub fn new(map: Vec<(String, NodeTree)>) -> (r: NodeTree)
        ensures
            r == NodeTree::Children(map),
    {
        NodeTree::Children(map)
    }
}

/// The views of a list of paths.
pub open spec fn path_views(p: Seq<Vec<String>>) -> Seq<Seq<Seq<char>>> {
    p.map_values(|v: Vec<String>| v@.map_values(|s: String| s@))
}

/// The first names of the first `n` paths, each once, in order of first
/// appearance.
pub open spec fn firsts(p: Seq<Seq<Seq<char>>>, n: int) -> Seq<Seq<char>>
    decreases n,
{
    if n <= 0 {
        seq![]
    } else if firsts(p, n - 1).contains(p[n - 1][0]) {
        firsts(p, n - 1)
    } else {
        firsts(p, n - 1).push(p[n - 1][0])
    }
}

/// The rests of the first `n` paths that start with `k`, in order.
pub open spec fn tails(p: Seq<Seq<Seq<char>>>, k: Seq<char>, n: int) -> Seq<Seq<Seq<char>>>
    decreases n,
{
    if n <= 0 {
        seq![]
    } else if p[n - 1][0] == k {
        tails(p, k, n - 1).push(p[n - 1].drop_first())
    } else {
        tails(p, k, n - 1)
    }
}

/// `t` is the tree of the paths `p`: a map whose names are the first names
/// of `p`, where a name that ends some path is a leaf and any other name
/// holds the tree of the rests of the paths that start with it.
pub open spec fn represents(t: NodeTree, p: Seq<Seq<Seq<char>>>) -> bool
    decreases t,
{
    match t {
        NodeTree::IsLeaf => false,
        NodeTree::Children(entries) => {
            &&& entries@.map_values(|e: (String, NodeTree)| e.0@) == firsts(p, p.len() as int)
            &&& forall|i: int| 0 <= i < entries@.len() ==> {
                let ts = tails(p, (#[trigger] entries@[i]).0@, p.len() as int);
                if ts.contains(Seq::<Seq<char>>::empty()) {
                    entries@[i].1 is IsLeaf
                } else {
                    represents(entries@[i].1, ts)
                }
            }
        },
    }
}

/// Every path has a name and at most `depth` names.
pub open spec fn paths_within(p: Seq<Seq<Seq<char>>>, depth: nat) -> bool {
    forall|i: int| 0 <= i < p.len() ==> 0 < (#[trigger] p[i]).len() <= depth
}

proof fn lemma_tails_shape(p: Seq<Seq<Seq<char>>>, k: Seq<char>, n: int, depth: nat)
    requires
        0 <= n <= p.len(),
        paths_within(p, depth),
    ensures
        forall|i: int| 0 <= i < tails(p, k, n).len() ==> (#[trigger] tails(p, k, n)[i]).len() < depth,
    decreases n,
{
    if n > 0 {
        lemma_tails_shape(p, k, n - 1, depth);
        let t = tails(p, k, n - 1);
        if p[n - 1][0] == k {
            assert(p[n - 1].len() <= depth);
            assert forall|i: int| 0 <= i < tails(p, k, n).len() implies (#[trigger] tails(p, k, n)[i]).len() < depth by {
                if i < t.len() {
                    assert(tails(p, k, n)[i] == t[i]);
                }
            }
        }
    }
}

proof fn lemma_firsts_contains(p: Seq<Seq<Seq<char>>>, n: int, k: Seq<char>)
    requires
        0 <= n <= p.len(),
        forall|i: int| 0 <= i < p.len() ==> (#[trigger] p[i]).len() > 0,
    ensures
        firsts(p, n).contains(k) ==> exists|j: int| 0 <= j < n && (#[trigger] p[j])[0] == k,
        (exists|j: int| 0 <= j < n && (#[trigger] p[j])[0] == k) ==> firsts(p, n).contains(k),
    decreases n,
{
    if n > 0 {
        lemma_firsts_contains(p, n - 1, k);
        if firsts(p, n).contains(k) && !firsts(p, n - 1).contains(k) {
            assert(p[n - 1][0] == k);
        }
        if exists|j: int| 0 <= j < n && (#[trigger] p[j])[0] == k {
            let j = choose|j: int| 0 <= j < n && (#[trigger] p[j])[0] == k;
            if j < n - 1 {
                assert(firsts(p, n - 1).contains(k));
                if !firsts(p, n - 1).contains(p[n - 1][0]) {
                    assert(firsts(p, n) == firsts(p, n - 1).push(p[n - 1][0]));
                    let m = choose|m: int| 0 <= m < firsts(p, n - 1).len() && #[trigger] firsts(p, n - 1)[m] == k;
                    assert(firsts(p, n)[m] == k);
                }
            } else {
                if firsts(p, n - 1).contains(k) {
                    let m = choose|m: int| 0 <= m < firsts(p, n - 1).len() && #[trigger] firsts(p, n - 1)[m] == k;
                    assert(firsts(p, n)[m] == k);
                } else {
                    assert(firsts(p, n)[firsts(p, n - 1).len() as int] == k);
                }
            }
        }
    }
}

/// The rests of the paths that start with `key`, and whether one of them
/// is empty.
fn tails_of(paths: &Vec<Vec<String>>, key: &String) -> (r: (Vec<Vec<String>>, bool))
    requires
        forall|i: int| 0 <= i < paths@.len() ==> (#[trigger] paths@[i])@.len() > 0,
    ensures
        path_views(r.0@) == tails(path_views(paths@), key@, paths@.len() as int),
        r.1 == tails(path_views(paths@), key@, paths@.len() as int).contains(Seq::<Seq<char>>::empty()),
{
    let ghost p = path_views(paths@);
    let mut out: Vec<Vec<String>> = Vec::new();
    let mut has_empty = false;
    let mut j: usize = 0;
    while j < paths.len()
        invariant
            p == path_views(paths@),
            forall|i: int| 0 <= i < paths@.len() ==> (#[trigger] paths@[i])@.len() > 0,
            j <= paths@.len(),
            path_views(out@) == tails(p, key@, j as int),
            has_empty == tails(p, key@, j as int).contains(Seq::<Seq<char>>::empty()),
        decreases paths@.len() - j,
    {
        let path = &paths[j];
        assert(p[j as int] == path@.map_values(|s: String| s@));
        if path[0] == *key {
            let mut tail: Vec<String> = Vec::new();
            let mut m: usize = 1;
            while m < path.len()
                invariant
                    1 <= m <= path@.len(),
                    tail@ == path@.subrange(1, m as int),
                decreases path@.len() - m,
            {
                let name = path[m].clone();
                tail.push(name);
                assert(tail@ =~= path@.subrange(1, m + 1));
                m = m + 1;
            }
            assert(tail@.map_values(|s: String| s@) =~= path@.map_values(|s: String| s@).subrange(1, path@.len() as int));
            let ghost before = out@;
            let empty = tail.len() == 0;
            out.push(tail);
            proof {
                assert(tail@.map_values(|s: String| s@) =~= p[j as int].drop_first());
                assert(path_views(out@) =~= path_views(before).push(p[j as int].drop_first()));
                let t = tails(p, key@, j as int);
                let t2 = tails(p, key@, j + 1);
                assert(t2 == t.push(p[j as int].drop_first()));
                if t.contains(Seq::<Seq<char>>::empty()) {
                    let q = choose|q: int| 0 <= q < t.len() && #[trigger] t[q] == Seq::<Seq<char>>::empty();
                    assert(t2[q] == Seq::<Seq<char>>::empty());
                }
                if empty {
                    assert(t2[t.len() as int] =~= Seq::<Seq<char>>::empty());
                }
                if t2.contains(Seq::<Seq<char>>::empty()) && !empty {
                    let q = choose|q: int| 0 <= q < t2.len() && #[trigger] t2[q] == Seq::<Seq<char>>::empty();
                    if q == t.len() {
                        assert(p[j as int].drop_first().len() == tail@.len());
                    } else {
                        assert(t[q] == t2[q]);
                    }
                }
            }
            has_empty = has_empty || empty;
        }
        j = j + 1;
    }
    (out, has_empty)
}

fn build_tree(paths: &Vec<Vec<String>>, depth: usize) -> (r: NodeTree)
    requires
        paths_within(path_views(paths@), depth as nat),
    ensures
        represents(r, path_views(paths@)),
    decreases depth,
{
    let ghost p = path_views(paths@);
    proof {
        assert forall|i: int| 0 <= i < paths@.len() implies (#[trigger] paths@[i])@.len() > 0 by {
            assert(p[i].len() > 0);
        }
    }
    let mut entries: Vec<(String, NodeTree)> = Vec::new();
    let mut i: usize = 0;
    while i < paths.len()
        invariant
            p == path_views(paths@),
            paths_within(p, depth as nat),
            forall|k: int| 0 <= k < paths@.len() ==> (#[trigger] paths@[k])@.len() > 0,
            i <= paths@.len(),
            entries@.map_values(|e: (String, NodeTree)| e.0@) == firsts(p, i as int),
            forall|k: int| 0 <= k < entries@.len() ==> {
                let ts = tails(p, (#[trigger] entries@[k]).0@, p.len() as int);
                if ts.contains(Seq::<Seq<char>>::empty()) {
                    entries@[k].1 is IsLeaf
                } else {
                    represents(entries@[k].1, ts)
                }
            },
        decreases paths@.len() - i,
    {
        let key = &paths[i][0];
        assert(p[i as int][0] == key@);
        let mut seen = false;
        let mut e: usize = 0;
        while e < entries.len()
            invariant
                e <= entries@.len(),
                seen == entries@.subrange(0, e as int).map_values(|x: (String, NodeTree)| x.0@).contains(key@),
            decreases entries@.len() - e,
        {
            let ghost a = entries@.subrange(0, e as int).map_values(|x: (String, NodeTree)| x.0@);
            let ghost b = entries@.subrange(0, e + 1).map_values(|x: (String, NodeTree)| x.0@);
            let same = entries[e].0 == *key;
            proof {
                assert(b =~= a.push(entries@[e as int].0@));
                assert(b[a.len() as int] == entries@[e as int].0@);
                if a.contains(key@) {
                    let q = choose|q: int| 0 <= q < a.len() && #[trigger] a[q] == key@;
                    assert(b[q] == key@);
                }
                if same {
                    assert(b[a.len() as int] == key@);
                }
                if b.contains(key@) && !same {
                    let q = choose|q: int| 0 <= q < b.len() && #[trigger] b[q] == key@;
                    assert(q < a.len());
                    assert(a[q] == key@);
                }
            }
            if same {
                seen = true;
            }
            e = e + 1;
        }
        assert(entries@.subrange(0, entries@.len() as int) =~= entries@);
        if !seen {
            let (sub_paths, is_leaf) = tails_of(paths, key);
            let child = if is_leaf {
                NodeTree::IsLeaf
            } else {
                proof {
                    lemma_tails_shape(p, key@, p.len() as int, depth as nat);
                    let ts = tails(p, key@, p.len() as int);
                    assert forall|t: int| 0 <= t < ts.len() implies 0 < (#[trigger] ts[t]).len() <= (depth - 1) as nat by {
                        if ts[t].len() == 0 {
                            assert(ts[t] =~= Seq::<Seq<char>>::empty());
                        }
                    }
                    assert(depth > 0) by {
                        assert(p[i as int].len() <= depth);
                    }
                }
                build_tree(&sub_paths, depth - 1)
            };
            let ghost before = entries@;
            entries.push((key.clone(), child));
            proof {
                assert(entries@.map_values(|x: (String, NodeTree)| x.0@) =~= before.map_values(|x: (String, NodeTree)| x.0@).push(key@));
            }
        }
        i = i + 1;
    }
    assert(p.len() == paths@.len());
    NodeTree::Children(entries)
}

/// The tree of the given paths; each path is a non-empty list of names.
pub fn to_node_tree(paths: Vec<Vec<String>>) -> (r: NodeTree)
    requires
        forall|i: int| 0 <= i < paths@.len() ==> (#[trigger] paths@[i])@.len() > 0,
    ensures
        represents(r, path_views(paths@)),
{
    let mut depth: usize = 0;
    let mut i: usize = 0;
    while i < paths.len()
        invariant
            i <= paths@.len(),
            forall|k: int| 0 <= k < i ==> (#[trigger] paths@[k])@.len() <= depth,
        decreases paths@.len() - i,
    {
        if paths[i].len() > depth {
            depth = paths[i].len();
        }
        i = i + 1;
    }
    proof {
        let p = path_views(paths@);
        assert forall|k: int| 0 <= k < p.len() implies 0 < (#[trigger] p[k]).len() <= depth as nat by {
            assert(p[k].len() == paths@[k]@.len());
        }
    }
    build_tree(&paths, depth)
}

} // verus!
