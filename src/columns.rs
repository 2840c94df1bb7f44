//! Id-to-parent join columns: for an id, the list of ids one level up.
//!
//! Every column answers `get_values(id)`; its model is the spec function
//! `values_of(id)`, which each implementation's `get_values` returns exactly.

use vstd::prelude::*;
use crate::codec::{bytes_to_vec_u32, decode_u32s, sort_u32, sorted, vec_to_bytes_u32};

verus! {

broadcast use vstd::seq_lib::group_to_multiset_ensures;

/// The value stored in an [`IndexIdToOneParent`] for an id without parent.
pub const NOT_FOUND: i32 = -2147483648;

/// The value of `indirect_ids` in a [`PointingArrays`] for an id without values.
pub const NO_POSITION: u32 = 0xffff_ffff;

/// The view of an optional list of ids.
pub open spec fn opt_view(o: Option<Vec<u32>>) -> Option<Seq<u32>> {
    match o {
        Some(v) => Some(v@),
        None => None,
    }
}

/// A column mapping an id to the ids of its parents.
pub trait IndexIdToParent {
    /// The parents of `id`, or `None` where the column holds nothing for it.
    spec fn values_of(&self, id: u64) -> Option<Seq<u32>>;

    /// The ids that the column lists as keys, in ascending order.
    spec fn keys_of(&self) -> Seq<u32>;

    /// What `get_values` needs of the column.
    spec fn wf(&self) -> bool;

    fn get_values(&self, id: u64) -> (r: Option<Vec<u32>>)
        requires
            self.wf(),
        ensures
            opt_view(r) == self.values_of(id),
    ;

    fn get_keys(&self) -> (r: Vec<u32>)
        requires
            self.wf(),
        ensures
            r@ == self.keys_of(),
    ;
}

/// The values paired with `id` among the first `n` pairs of `keys` and `vals`,
/// in pair order.
pub open spec fn values_for(keys: Seq<u32>, vals: Seq<u32>, id: u32, n: int) -> Seq<u32>
    decreases n,
{
    if n <= 0 {
        seq![]
    } else if keys[n - 1] == id {
        values_for(keys, vals, id, n - 1).push(vals[n - 1])
    } else {
        values_for(keys, vals, id, n - 1)
    }
}

proof fn lemma_values_for_skip(keys: Seq<u32>, vals: Seq<u32>, id: u32, from: int, to: int)
    requires
        0 <= from <= to <= keys.len(),
        forall|j: int| from <= j < to ==> keys[j] != id,
    ensures
        values_for(keys, vals, id, to) == values_for(keys, vals, id, from),
    decreases to - from,
{
    if to > from {
        lemma_values_for_skip(keys, vals, id, from, to - 1);
    }
}

/// Two parallel arrays: `values1[i]` is a key and `values2[i]` a value of
/// that key. The keys are kept sorted so that a key is found by binary search.
pub struct ParallelArrays {
    pub values1: Vec<u32>,
    pub values2: Vec<u32>,
}

impl ParallelArrays {
    /// The values of key `id`, in the order in which the pairs stand.
    pub open spec fn values_of_key(&self, id: u32) -> Seq<u32> {
        values_for(self.values1@, self.values2@, id, self.values1@.len() as int)
    }

    /// The first position whose key is not below `id`.
    fn lower_bound(&self, id: u32) -> (r: usize)
        requires
            sorted(self.values1@),
        ensures
            r <= self.values1@.len(),
            forall|j: int| 0 <= j < r ==> self.values1@[j] < id,
            forall|j: int| r <= j < self.values1@.len() ==> self.values1@[j] >= id,
    {
        let mut lo: usize = 0;
        let mut hi: usize = self.values1.len();
        while lo < hi
            invariant
                lo <= hi <= self.values1@.len(),
                sorted(self.values1@),
                forall|j: int| 0 <= j < lo ==> self.values1@[j] < id,
                forall|j: int| hi <= j < self.values1@.len() ==> self.values1@[j] >= id,
            decreases hi - lo,
        {
            let mid = lo + (hi - lo) / 2;
            if self.values1[mid] < id {
                lo = mid + 1;
            } else {
                hi = mid;
            }
        }
        lo
    }
}

impl IndexIdToParent for ParallelArrays {
    /// Every id has a list, empty where the id is no key (an id beyond
    /// `u32` is none).
    open spec fn values_of(&self, id: u64) -> Option<Seq<u32>> {
        if id <= u32::MAX {
            Some(self.values_of_key(id as u32))
        } else {
            Some(seq![])
        }
    }

    open spec fn keys_of(&self) -> Seq<u32> {
        self.values1@
    }

    open spec fn wf(&self) -> bool {
        &&& self.values1@.len() == self.values2@.len()
        &&& sorted(self.values1@)
    }

    fn get_values(&self, id: u64) -> (r: Option<Vec<u32>>) {
        if id > 0xffff_ffffu64 {
            let empty: Vec<u32> = Vec::new();
            assert(empty@ =~= Seq::<u32>::empty());
            return Some(empty);
        }
        let key = id as u32;
        let n = self.values1.len();
        let mut pos = self.lower_bound(key);
        proof {
            lemma_values_for_skip(self.values1@, self.values2@, key, 0, pos as int);
        }
        let mut result: Vec<u32> = Vec::new();
        while pos < n && self.values1[pos] == key
            invariant
                n == self.values1@.len(),
                self.values1@.len() == self.values2@.len(),
                sorted(self.values1@),
                pos <= n,
                forall|j: int| pos <= j < n ==> self.values1@[j] >= key,
                result@ == values_for(self.values1@, self.values2@, key, pos as int),
            decreases n - pos,
        {
            result.push(self.values2[pos]);
            pos = pos + 1;
        }
        proof {
            if pos < n {
                assert forall|j: int| pos <= j < n implies self.values1@[j] != key by {
                    assert(self.values1@[pos as int] <= self.values1@[j]);
                }
            }
            lemma_values_for_skip(self.values1@, self.values2@, key, pos as int, n as int);
        }
        Some(result)
    }

    fn get_keys(&self) -> (r: Vec<u32>) {
        self.values1.clone()
    }
}

/// Copies `v[start..end]`.
fn copy_range(v: &Vec<u32>, start: usize, end: usize) -> (r: Vec<u32>)
    requires
        start <= end <= v@.len(),
    ensures
        r@ == v@.subrange(start as int, end as int),
{
    let mut out: Vec<u32> = Vec::new();
    let mut i: usize = start;
    while i < end
        invariant
            start <= i <= end <= v@.len(),
            out@ == v@.subrange(start as int, i as int),
        decreases end - i,
    {
        out.push(v[i]);
        assert(out@ =~= v@.subrange(start as int, i + 1));
        i = i + 1;
    }
    out
}

/// An indirect multi-value column: the values of id `i` are
/// `data[start_and_end[2 * i]..start_and_end[2 * i + 1]]`.
pub struct IndexIdToMultipleParentIndirect {
    pub start_and_end: Vec<u32>,
    pub data: Vec<u32>,
}

impl IndexIdToMultipleParentIndirect {
    /// The number of ids the column covers.
    pub open spec fn size(&self) -> nat {
        self.start_and_end@.len() / 2
    }

    /// The column made of the given offsets and data.
    pub fn from_data(start_and_end: Vec<u32>, data: Vec<u32>) -> (r: IndexIdToMultipleParentIndirect)
        ensures
            r.start_and_end@ == start_and_end@,
            r.data@ == data@,
    {
        IndexIdToMultipleParentIndirect { start_and_end, data }
    }

    /// The number of ids the column covers.
    pub fn get_size(&self) -> (r: usize)
        ensures
            r == self.size(),
    {
        self.start_and_end.len() / 2
    }
}

impl IndexIdToParent for IndexIdToMultipleParentIndirect {
    /// The slice between the two offsets of `id`, empty where they are
    /// equal; `None` for an id out of range or offsets that do not delimit
    /// a slice of `data`.
    open spec fn values_of(&self, id: u64) -> Option<Seq<u32>> {
        if id < self.size() {
            let start = self.start_and_end@[2 * id as int];
            let end = self.start_and_end@[2 * id as int + 1];
            if start <= end && end <= self.data@.len() {
                Some(self.data@.subrange(start as int, end as int))
            } else {
                None
            }
        } else {
            None
        }
    }

    open spec fn keys_of(&self) -> Seq<u32> {
        Seq::new(self.size(), |i: int| i as u32)
    }

    open spec fn wf(&self) -> bool {
        self.size() <= 0x1_0000_0000
    }

    fn get_values(&self, id: u64) -> (r: Option<Vec<u32>>) {
        if id >= self.get_size() as u64 {
            None
        } else {
            let pos = id as usize;
            let len = self.start_and_end.len();
            assert(2 * pos + 1 < len) by (nonlinear_arith)
                requires
                    pos < len / 2,
            ;
            let start = self.start_and_end[2 * pos];
            let end = self.start_and_end[2 * pos + 1];
            if start <= end && (end as usize) <= self.data.len() {
                Some(copy_range(&self.data, start as usize, end as usize))
            } else {
                None
            }
        }
    }

    fn get_keys(&self) -> (r: Vec<u32>) {
        let size = self.get_size();
        let mut keys: Vec<u32> = Vec::new();
        let mut i: usize = 0;
        while i < size
            invariant
                size == self.size(),
                size <= 0x1_0000_0000,
                i <= size,
                keys@ == Seq::new(i as nat, |k: int| k as u32),
            decreases size - i,
        {
            keys.push(i as u32);
            assert(keys@ =~= Seq::new((i + 1) as nat, |k: int| k as u32));
            i = i + 1;
        }
        keys
    }
}

/// A one-to-one column: `data[id]` is the parent of `id`, or [`NOT_FOUND`].
pub struct IndexIdToOneParent {
    pub data: Vec<i32>,
}

impl IndexIdToOneParent {
    /// The parent of `id`, if it has one.
    pub open spec fn value_of(&self, id: u64) -> Option<u32> {
        if id < self.data@.len() && self.data@[id as int] != NOT_FOUND {
            Some(self.data@[id as int] as u32)
        } else {
            None
        }
    }

    /// The parent of `id`, if it has one.
    pub fn get_value(&self, id: u64) -> (r: Option<u32>)
        ensures
            r == self.value_of(id),
    {
        if id < self.data.len() as u64 {
            let val = self.data[id as usize];
            if val == NOT_FOUND {
                None
            } else {
                Some(val as u32)
            }
        } else {
            None
        }
    }
}

impl IndexIdToParent for IndexIdToOneParent {
    open spec fn values_of(&self, id: u64) -> Option<Seq<u32>> {
        match self.value_of(id) {
            Some(v) => Some(seq![v]),
            None => None,
        }
    }

    open spec fn keys_of(&self) -> Seq<u32> {
        Seq::new(self.data@.len(), |i: int| i as u32)
    }

    open spec fn wf(&self) -> bool {
        self.data@.len() <= 0x1_0000_0000
    }

    fn get_values(&self, id: u64) -> (r: Option<Vec<u32>>) {
        match self.get_value(id) {
            Some(v) => {
                let mut out: Vec<u32> = Vec::new();
                out.push(v);
                assert(out@ =~= seq![v]);
                Some(out)
            },
            None => None,
        }
    }

    fn get_keys(&self) -> (r: Vec<u32>) {
        let size = self.data.len();
        let mut keys: Vec<u32> = Vec::new();
        let mut i: usize = 0;
        while i < size
            invariant
                size == self.data@.len(),
                size <= 0x1_0000_0000,
                i <= size,
                keys@ == Seq::new(i as nat, |k: int| k as u32),
            decreases size - i,
        {
            keys.push(i as u32);
            assert(keys@ =~= Seq::new((i + 1) as nat, |k: int| k as u32));
            i = i + 1;
        }
        keys
    }
}

/// A sorted permutation of `t`.
pub open spec fn sorted_perm_of(s: Seq<u32>, t: Seq<u32>) -> bool {
    sorted(s) && s.to_multiset() == t.to_multiset()
}

/// The ids whose entry in `ind` (among the first `n`) holds a position, in
/// ascending order.
pub open spec fn present_ids(ind: Seq<u32>, n: int) -> Seq<u32>
    decreases n,
{
    if n <= 0 {
        seq![]
    } else if ind[n - 1] != NO_POSITION {
        present_ids(ind, n - 1).push((n - 1) as u32)
    } else {
        present_ids(ind, n - 1)
    }
}

/// A multi-value column with the values of each id packed as little-endian
/// bytes: `indirect_ids[id]` is a position `p`, and the values of `id` are the
/// bytes `arr2[arr1[p]..arr1[p + 1]]`.
pub struct PointingArrays {
    pub arr1: Vec<u64>,
    pub arr2: Vec<u8>,
    pub indirect_ids: Vec<u32>,
}

impl PointingArrays {
    /// Where the byte range of position `p` ends.
    pub open spec fn seg_end(&self, p: int) -> int {
        if p + 1 < self.arr1@.len() {
            self.arr1@[p + 1] as int
        } else {
            self.arr2@.len() as int
        }
    }

    /// The values of the id whose position is `p`.
    pub open spec fn segment(&self, p: int) -> Seq<u32> {
        decode_u32s(self.arr2@.subrange(self.arr1@[p] as int, self.seg_end(p)))
    }
}

impl IndexIdToParent for PointingArrays {
    /// `None` for an id without position, or whose byte range does not lie
    /// within `arr2`.
    open spec fn values_of(&self, id: u64) -> Option<Seq<u32>> {
        if id < self.indirect_ids@.len() && self.indirect_ids@[id as int] != NO_POSITION {
            let p = self.indirect_ids@[id as int] as int;
            if p + 1 < self.arr1@.len() && self.arr1@[p] <= self.arr1@[p + 1] <= self.arr2@.len() {
                Some(self.segment(p))
            } else {
                None
            }
        } else {
            None
        }
    }

    open spec fn keys_of(&self) -> Seq<u32> {
        present_ids(self.indirect_ids@, self.indirect_ids@.len() as int)
    }

    open spec fn wf(&self) -> bool {
        self.indirect_ids@.len() <= 0x1_0000_0000
    }

    fn get_values(&self, id: u64) -> (r: Option<Vec<u32>>) {
        if id >= self.indirect_ids.len() as u64 {
            return None;
        }
        let pos = self.indirect_ids[id as usize];
        if pos == NO_POSITION {
            return None;
        }
        let p = pos as usize;
        if p + 1 >= self.arr1.len() {
            return None;
        }
        let start = self.arr1[p];
        let end = self.arr1[p + 1];
        if start <= end && end <= self.arr2.len() as u64 {
            let bytes = &self.arr2.as_slice()[start as usize..end as usize];
            Some(bytes_to_vec_u32(bytes))
        } else {
            None
        }
    }

    fn get_keys(&self) -> (r: Vec<u32>) {
        let n = self.indirect_ids.len();
        let mut keys: Vec<u32> = Vec::new();
        let mut i: usize = 0;
        while i < n
            invariant
                n == self.indirect_ids@.len(),
                n <= 0x1_0000_0000,
                i <= n,
                keys@ == present_ids(self.indirect_ids@, i as int),
            decreases n - i,
        {
            if self.indirect_ids[i] != NO_POSITION {
                keys.push(i as u32);
            }
            i = i + 1;
        }
        keys
    }
}

/// The first `n` keys, each run of equal keys once.
pub open spec fn distinct_keys(k: Seq<u32>, n: int) -> Seq<u32>
    decreases n,
{
    if n <= 0 {
        seq![]
    } else if n >= 2 && k[n - 1] == k[n - 2] {
        distinct_keys(k, n - 1)
    } else {
        distinct_keys(k, n - 1).push(k[n - 1])
    }
}

proof fn lemma_present_ids_prefix(a: Seq<u32>, b: Seq<u32>, n: int)
    requires
        0 <= n <= a.len(),
        n <= b.len(),
        forall|i: int| 0 <= i < n ==> a[i] == b[i],
    ensures
        present_ids(a, n) == present_ids(b, n),
    decreases n,
{
    if n > 0 {
        lemma_present_ids_prefix(a, b, n - 1);
    }
}

proof fn lemma_present_ids_skip(a: Seq<u32>, m: int, n: int)
    requires
        0 <= m <= n <= a.len(),
        forall|i: int| m <= i < n ==> a[i] == NO_POSITION,
    ensures
        present_ids(a, n) == present_ids(a, m),
    decreases n - m,
{
    if m < n {
        lemma_present_ids_skip(a, m, n - 1);
    }
}

/// `id` is among the first `i` keys.
pub open spec fn seen(keys: Seq<u32>, i: int, id: u32) -> bool {
    keys.subrange(0, i).contains(id)
}

/// Packs parallel key and value arrays, sorted by key, into a
/// [`PointingArrays`]: each key gets the values paired with it, sorted; an
/// id that is no key gets nothing.
pub fn parrallel_arrays_to_pointing_array(keys: Vec<u32>, values: Vec<u32>) -> (r: PointingArrays)
    requires
        keys@.len() == values@.len(),
        sorted(keys@),
        keys@.len() < NO_POSITION,
    ensures
        r.wf(),
        r.keys_of() == distinct_keys(keys@, keys@.len() as int),
        forall|id: u32| !keys@.contains(id) ==> #[trigger] r.values_of(id as u64) is None,
        forall|id: u32| #[trigger] keys@.contains(id) ==> r.values_of(id as u64) is Some
            && sorted_perm_of(r.values_of(id as u64)->0, values_for(keys@, values@, id, keys@.len() as int)),
{
    let ghost kk = keys@;
    let ghost vv = values@;
    let n = keys.len();
    let store = ParallelArrays { values1: keys, values2: values };
    let mut r = PointingArrays { arr1: Vec::new(), arr2: Vec::new(), indirect_ids: Vec::new() };
    let mut pos: u32 = 0;
    let mut i: usize = 0;
    while i < n
        invariant
            store.values1@ == kk,
            store.values2@ == vv,
            n == kk.len(),
            kk.len() == vv.len(),
            sorted(kk),
            n < NO_POSITION,
            i <= n,
            pos <= i,
            r.arr1@.len() == pos,
            forall|p: int, q: int| 0 <= p < q < r.arr1@.len() ==> r.arr1@[p] <= r.arr1@[q],
            forall|p: int| 0 <= p < r.arr1@.len() ==> r.arr1@[p] <= r.arr2@.len(),
            i > 0 ==> r.indirect_ids@.len() <= kk[i - 1] + 1,
            i == 0 ==> r.indirect_ids@.len() == 0,
            forall|id: u32| #[trigger] seen(kk, i as int, id) ==> {
                &&& id < r.indirect_ids@.len()
                &&& r.indirect_ids@[id as int] < pos
                &&& sorted_perm_of(r.segment(r.indirect_ids@[id as int] as int), values_for(kk, vv, id, n as int))
            },
            forall|id: u32| !#[trigger] seen(kk, i as int, id) ==> (id >= r.indirect_ids@.len() || r.indirect_ids@[id as int] == NO_POSITION),
            present_ids(r.indirect_ids@, r.indirect_ids@.len() as int) == distinct_keys(kk, i as int),
        decreases n - i,
    {
        let key = store.values1[i];
        if i == 0 || store.values1[i - 1] != key {
            let ghost old_r = r;
            proof {
                if i > 0 {
                    assert forall|id: u32| seen(kk, i as int, id) implies id < key by {
                        let j = choose|j: int| 0 <= j < i && kk.subrange(0, i as int)[j] == id;
                        assert(kk[j] <= kk[i - 1]);
                    }
                }
            }
            let mut vals = store.get_values(key as u64).unwrap();
            sort_u32(&mut vals);
            let mut data = vec_to_bytes_u32(vals.as_slice());
            let offset = r.arr2.len() as u64;
            r.arr1.push(offset);
            while r.indirect_ids.len() <= key as usize
                invariant
                    r.arr1@ == old_r.arr1@.push(offset),
                    r.arr2@ == old_r.arr2@,
                    r.indirect_ids@.len() >= old_r.indirect_ids@.len(),
                    r.indirect_ids@.subrange(0, old_r.indirect_ids@.len() as int) == old_r.indirect_ids@,
                    forall|k: int| old_r.indirect_ids@.len() <= k < r.indirect_ids@.len() ==> r.indirect_ids@[k] == NO_POSITION,
                    r.indirect_ids@.len() <= key + 1 || r.indirect_ids@.len() == old_r.indirect_ids@.len(),
                decreases key as usize + 1 - r.indirect_ids@.len(),
            {
                r.indirect_ids.push(NO_POSITION);
            }
            let ghost ext = r.indirect_ids@;
            r.indirect_ids.set(key as usize, pos);
            proof {
                let old_ind = old_r.indirect_ids@;
                let new_ind = r.indirect_ids@;
                assert(old_ind.len() <= key);
                assert(new_ind.len() == key + 1);
                lemma_present_ids_prefix(new_ind, old_ind, old_ind.len() as int);
                assert forall|k: int| old_ind.len() <= k < key implies new_ind[k] == NO_POSITION by {
                    assert(new_ind[k] == ext[k]);
                }
                lemma_present_ids_skip(new_ind, old_ind.len() as int, key as int);
                assert(new_ind[key as int] == pos);
                assert(present_ids(new_ind, key + 1) == present_ids(new_ind, key as int).push(key));
                assert(distinct_keys(kk, i + 1) == distinct_keys(kk, i as int).push(key));
            }
            let ghost bytes = data@;
            r.arr2.append(&mut data);
            proof {
                assert(r.arr2@.subrange(offset as int, r.arr2@.len() as int) =~= bytes);
                assert forall|id: u32| #[trigger] seen(kk, i + 1, id) implies {
                    &&& id < r.indirect_ids@.len()
                    &&& r.indirect_ids@[id as int] < pos + 1
                    &&& sorted_perm_of(r.segment(r.indirect_ids@[id as int] as int), values_for(kk, vv, id, n as int))
                } by {
                    if id == key {
                        assert(r.indirect_ids@[id as int] == pos);
                        assert(r.arr1@[pos as int] == offset);
                        assert(r.seg_end(pos as int) == r.arr2@.len());
                        assert(decode_u32s(bytes) == vals@);
                        assert(r.segment(pos as int) == vals@);
                        assert(sorted_perm_of(vals@, values_for(kk, vv, id, n as int)));
                    } else {
                        assert(kk.subrange(0, i + 1) == kk.subrange(0, i as int).push(key));
                        assert(seen(kk, i as int, id));
                        let p = old_r.indirect_ids@[id as int] as int;
                        assert(r.indirect_ids@[id as int] == p);
                        assert(r.arr2@.subrange(r.arr1@[p] as int, r.seg_end(p)) == old_r.arr2@.subrange(old_r.arr1@[p] as int, old_r.seg_end(p)));
                    }
                }
                assert forall|id: u32| !#[trigger] seen(kk, i + 1, id) implies (id >= r.indirect_ids@.len() || r.indirect_ids@[id as int] == NO_POSITION) by {
                    assert(kk.subrange(0, i + 1) == kk.subrange(0, i as int).push(key));
                    assert(kk.subrange(0, i + 1)[i as int] == key);
                    assert(id != key);
                    if !seen(kk, i as int, id) && id < old_r.indirect_ids@.len() {
                        assert(old_r.indirect_ids@[id as int] == NO_POSITION);
                    }
                }
            }
            pos = pos + 1;
        } else {
            proof {
                assert(kk.subrange(0, i + 1) == kk.subrange(0, i as int).push(key));
                assert forall|id: u32| #[trigger] seen(kk, i + 1, id) == seen(kk, i as int, id) by {
                    assert(kk.subrange(0, i as int)[i - 1] == key);
                }
            }
        }
        i = i + 1;
    }
    let ghost before = r;
    let end = r.arr2.len() as u64;
    r.arr1.push(end);
    proof {
        assert(kk.subrange(0, n as int) == kk);
        assert forall|id: u32| #[trigger] kk.contains(id) implies r.values_of(id as u64) is Some
            && sorted_perm_of(r.values_of(id as u64)->0, values_for(kk, vv, id, kk.len() as int)) by {
            assert(seen(kk, n as int, id));
            let p = r.indirect_ids@[id as int] as int;
            assert(r.segment(p) == before.segment(p));
        }
        assert forall|id: u32| !kk.contains(id) implies #[trigger] r.values_of(id as u64) is None by {
            assert(!seen(kk, n as int, id));
        }
        assert(r.indirect_ids@.len() <= 0x1_0000_0000);
    }
    r
}

/// The list of an optional list, empty where there is none.
pub open spec fn or_empty(o: Option<Seq<u32>>) -> Seq<u32> {
    match o {
        Some(v) => v,
        None => seq![],
    }
}

/// What [`id_to_parent_to_array_of_array`] holds for `id`: the values of
/// `id` where it is a key, else nothing.
pub open spec fn keyed_values<S: IndexIdToParent>(store: &S, id: int) -> Seq<u32> {
    if store.keys_of().contains(id as u32) {
        or_empty(store.values_of(id as u64))
    } else {
        seq![]
    }
}

/// One list per id up to the largest key: the values of each key, empty
/// for the ids between keys.
pub fn id_to_parent_to_array_of_array<S: IndexIdToParent>(store: &S) -> (r: Vec<Vec<u32>>)
    requires
        store.wf(),
        sorted(store.keys_of()),
    ensures
        store.keys_of().len() == 0 ==> r@.len() == 0,
        store.keys_of().len() > 0 ==> r@.len() == store.keys_of().last() + 1,
        forall|id: int| 0 <= id < r@.len() ==> #[trigger] r@[id]@ == keyed_values(store, id),
{
    let keys = store.get_keys();
    let mut data: Vec<Vec<u32>> = Vec::new();
    if keys.len() == 0 {
        return data;
    }
    let last = keys[keys.len() - 1];
    let ghost ks = keys@;
    while data.len() <= last as usize
        invariant
            data@.len() <= last + 1,
            forall|id: int| 0 <= id < data@.len() ==> #[trigger] data@[id]@ == Seq::<u32>::empty(),
        decreases last + 1 - data@.len(),
    {
        data.push(Vec::new());
    }
    let mut i: usize = 0;
    while i < keys.len()
        invariant
            keys@ == ks,
            ks == store.keys_of(),
            sorted(ks),
            ks.len() > 0,
            last == ks.last(),
            store.wf(),
            i <= ks.len(),
            data@.len() == last + 1,
            forall|id: int| 0 <= id < data@.len() ==> #[trigger] data@[id]@ == if ks.subrange(0, i as int).contains(id as u32) {
                or_empty(store.values_of(id as u64))
            } else {
                Seq::<u32>::empty()
            },
        decreases ks.len() - i,
    {
        let valid = keys[i];
        assert(valid <= last) by {
            if i + 1 < ks.len() {
                assert(ks[i as int] <= ks[ks.len() - 1]);
            }
        }
        let ghost before = data@;
        match store.get_values(valid as u64) {
            Some(vals) => {
                data.set(valid as usize, vals);
            },
            None => {},
        }
        assert(ks.subrange(0, i + 1) == ks.subrange(0, i as int).push(valid));
        assert forall|id: int| 0 <= id < data@.len() implies #[trigger] data@[id]@ == if ks.subrange(0, i + 1).contains(id as u32) {
            or_empty(store.values_of(id as u64))
        } else {
            Seq::<u32>::empty()
        } by {
            assert(ks.subrange(0, i + 1)[i as int] == valid);
            if id != valid as int {
                assert(data@[id] == before[id]);
                assert(id as u32 != valid);
                if ks.subrange(0, i + 1).contains(id as u32) {
                    let j = choose|j: int| 0 <= j < i + 1 && #[trigger] ks.subrange(0, i + 1)[j] == id as u32;
                    assert(ks.subrange(0, i as int)[j] == id as u32);
                }
            }
        }
        i = i + 1;
    }
    assert(ks.subrange(0, ks.len() as int) == ks);
    data
}

/// A column holding the list of every id in memory.
pub struct IndexIdToMultipleParent {
    pub data: Vec<Vec<u32>>,
}

impl IndexIdToMultipleParent {
    /// The lists of `store`, one per id up to its largest key.
    pub fn new<S: IndexIdToParent>(store: &S) -> (r: IndexIdToMultipleParent)
        requires
            store.wf(),
            sorted(store.keys_of()),
        ensures
            store.keys_of().len() == 0 ==> r.data@.len() == 0,
            store.keys_of().len() > 0 ==> r.data@.len() == store.keys_of().last() + 1,
            forall|id: int| 0 <= id < r.data@.len() ==> #[trigger] r.data@[id]@ == keyed_values(store, id),
    {
        IndexIdToMultipleParent { data: id_to_parent_to_array_of_array(store) }
    }
}

impl IndexIdToParent for IndexIdToMultipleParent {
    open spec fn values_of(&self, id: u64) -> Option<Seq<u32>> {
        if id < self.data@.len() {
            Some(self.data@[id as int]@)
        } else {
            None
        }
    }

    open spec fn keys_of(&self) -> Seq<u32> {
        Seq::new(self.data@.len(), |i: int| i as u32)
    }

    open spec fn wf(&self) -> bool {
        self.data@.len() <= 0x1_0000_0000
    }

    fn get_values(&self, id: u64) -> (r: Option<Vec<u32>>) {
        if id < self.data.len() as u64 {
            let v = &self.data[id as usize];
            Some(copy_range(v, 0, v.len()))
        } else {
            None
        }
    }

    fn get_keys(&self) -> (r: Vec<u32>) {
        let size = self.data.len();
        let mut keys: Vec<u32> = Vec::new();
        let mut i: usize = 0;
        while i < size
            invariant
                size == self.data@.len(),
                size <= 0x1_0000_0000,
                i <= size,
                keys@ == Seq::new(i as nat, |k: int| k as u32),
            decreases size - i,
        {
            keys.push(i as u32);
            assert(keys@ =~= Seq::new((i + 1) as nat, |k: int| k as u32));
            i = i + 1;
        }
        keys
    }
}

impl IndexIdToOneParent {
    /// The first parent of each id of `store` up to its largest key;
    /// [`NOT_FOUND`] where an id has none. A parent is stored as the `i32`
    /// with the same bits.
    pub fn new<S: IndexIdToParent>(store: &S) -> (r: IndexIdToOneParent)
        requires
            store.wf(),
            sorted(store.keys_of()),
        ensures
            store.keys_of().len() == 0 ==> r.data@.len() == 0,
            store.keys_of().len() > 0 ==> r.data@.len() == store.keys_of().last() + 1,
            forall|id: int| 0 <= id < r.data@.len() ==> #[trigger] r.data@[id] == if keyed_values(store, id).len() > 0 {
                keyed_values(store, id)[0] as i32
            } else {
                NOT_FOUND
            },
    {
        let arrays = id_to_parent_to_array_of_array(store);
        let mut data: Vec<i32> = Vec::new();
        let mut i: usize = 0;
        while i < arrays.len()
            invariant
                i <= arrays@.len(),
                data@.len() == i,
                forall|id: int| 0 <= id < arrays@.len() ==> #[trigger] arrays@[id]@ == keyed_values(store, id),
                forall|id: int| 0 <= id < i ==> #[trigger] data@[id] == if keyed_values(store, id).len() > 0 {
                    keyed_values(store, id)[0] as i32
                } else {
                    NOT_FOUND
                },
            decreases arrays@.len() - i,
        {
            let el = &arrays[i];
            if el.len() > 0 {
                data.push(el[0] as i32);
            } else {
                data.push(NOT_FOUND);
            }
            i = i + 1;
        }
        IndexIdToOneParent { data }
    }
}

/// The number of values of the ids below `n`.
pub open spec fn total_len<S: IndexIdToParent>(store: &S, n: int) -> nat
    decreases n,
{
    if n <= 0 {
        0
    } else {
        total_len(store, n - 1) + or_empty(store.values_of((n - 1) as u64)).len()
    }
}

proof fn lemma_total_len_monotone<S: IndexIdToParent>(store: &S, a: int, b: int)
    requires
        0 <= a <= b,
    ensures
        total_len(store, a) <= total_len(store, b),
    decreases b - a,
{
    if a < b {
        lemma_total_len_monotone(store, a, b - 1);
    }
}

/// What [`IndexIdToMultipleParentIndirect::new`] holds for `id` of a
/// column whose largest key is `last`: the values of `id` (empty where it
/// has none) up to `last`, nothing beyond.
pub open spec fn indirect_values<S: IndexIdToParent>(store: &S, last: int, id: u64) -> Option<Seq<u32>> {
    if id <= last {
        Some(or_empty(store.values_of(id)))
    } else {
        None
    }
}

/// The offsets of a packed column: the values of id `j` start where those
/// of all ids before it end, and end where those of `j` are added; so the
/// first offset is 0, each slice starts where the last ended, and the last
/// end is the length of the data.
pub open spec fn offsets_layout<S: IndexIdToParent>(r: IndexIdToMultipleParentIndirect, store: &S) -> bool {
    forall|j: int| 0 <= j < r.start_and_end@.len() / 2 ==> #[trigger] r.start_and_end@[2 * j] == total_len(store, j)
        && r.start_and_end@[2 * j + 1] == total_len(store, j + 1)
}

impl IndexIdToMultipleParentIndirect {
    /// The values of every id of `store` up to its largest key, packed one
    /// after another into `data`.
    pub fn new<S: IndexIdToParent>(store: &S) -> (r: IndexIdToMultipleParentIndirect)
        requires
            store.wf(),
            store.keys_of().len() > 0 ==> total_len(store, store.keys_of().last() + 1) <= 0xffff_ffff,
        ensures
            store.keys_of().len() == 0 ==> r.size() == 0 && r.data@.len() == 0,
            r.start_and_end@.len() == 2 * r.size(),
            store.keys_of().len() > 0 ==> r.size() == store.keys_of().last() + 1,
            store.keys_of().len() > 0 ==> forall|id: u64| #[trigger] r.values_of(id)
                == indirect_values(store, store.keys_of().last() as int, id),
            store.keys_of().len() > 0 ==> r.data@.len() == total_len(store, store.keys_of().last() + 1),
            offsets_layout(r, store),
    {
        let keys = store.get_keys();
        if keys.len() == 0 {
            let r = IndexIdToMultipleParentIndirect { start_and_end: Vec::new(), data: Vec::new() };
            assert(r.start_and_end@.len() == 0);
            assert(r.data@.len() == 0);
            return r;
        }
        let last = keys[keys.len() - 1];
        let ghost bound = total_len(store, last + 1);
        let mut start_and_end: Vec<u32> = Vec::new();
        let mut data: Vec<u32> = Vec::new();
        let mut valid: u32 = 0;
        let mut done = false;
        while !done
            invariant
                store.wf(),
                bound == total_len(store, last + 1),
                bound <= 0xffff_ffff,
                done ==> valid == last,
                !done ==> valid <= last,
                start_and_end@.len() == 2 * (valid + if done { 1int } else { 0 }),
                data@.len() == total_len(store, valid + if done { 1int } else { 0 }),
                forall|j: int| 0 <= j < start_and_end@.len() / 2 ==> {
                    &&& #[trigger] start_and_end@[2 * j] == total_len(store, j)
                    &&& start_and_end@[2 * j + 1] == total_len(store, j + 1)
                    &&& start_and_end@[2 * j] <= start_and_end@[2 * j + 1] <= data@.len()
                    &&& data@.subrange(start_and_end@[2 * j] as int, start_and_end@[2 * j + 1] as int)
                        == or_empty(store.values_of(j as u64))
                },
            decreases last - valid + if done { 0int } else { 1 },
        {
            proof {
                lemma_total_len_monotone(store, valid + 1, last + 1);
            }
            let start = data.len() as u32;
            let ghost before_data = data@;
            let ghost before_se = start_and_end@;
            match store.get_values(valid as u64) {
                Some(vals) => {
                    let mut vals = vals;
                    data.append(&mut vals);
                },
                None => {},
            }
            let end = data.len() as u32;
            start_and_end.push(start);
            start_and_end.push(end);
            proof {
                assert(data@.subrange(start as int, end as int) =~= or_empty(store.values_of(valid as u64)));
                assert forall|j: int| 0 <= j < start_and_end@.len() / 2 implies {
                    &&& #[trigger] start_and_end@[2 * j] == total_len(store, j)
                    &&& start_and_end@[2 * j + 1] == total_len(store, j + 1)
                    &&& start_and_end@[2 * j] <= start_and_end@[2 * j + 1] <= data@.len()
                    &&& data@.subrange(start_and_end@[2 * j] as int, start_and_end@[2 * j + 1] as int)
                        == or_empty(store.values_of(j as u64))
                } by {
                    if j < valid {
                        assert(start_and_end@[2 * j] == before_se[2 * j]);
                        assert(start_and_end@[2 * j + 1] == before_se[2 * j + 1]);
                        assert(data@.subrange(before_se[2 * j] as int, before_se[2 * j + 1] as int)
                            =~= before_data.subrange(before_se[2 * j] as int, before_se[2 * j + 1] as int));
                    } else {
                        assert(j == valid);
                    }
                }
            }
            if valid == last {
                done = true;
            } else {
                valid = valid + 1;
            }
        }
        let r = IndexIdToMultipleParentIndirect { start_and_end, data };
        proof {
            assert forall|j: int| 0 <= j < r.start_and_end@.len() / 2 implies #[trigger] r.start_and_end@[2 * j] == total_len(store, j)
                && r.start_and_end@[2 * j + 1] == total_len(store, j + 1) by {
                assert(r.start_and_end@ == start_and_end@);
                assert(j < start_and_end@.len() / 2);
                assert(start_and_end@[2 * j] == total_len(store, j));
                assert(start_and_end@[2 * j + 1] == total_len(store, j + 1));
            }
            assert forall|id: u64| #[trigger] r.values_of(id) == indirect_values(store, last as int, id) by {
                if id <= last {
                    let j = id as int;
                    assert(r.start_and_end@[2 * j] <= r.start_and_end@[2 * j + 1]);
                }
            }
        }
        r
    }
}

/// The values of the ids `ids`, in turn, where the column has any.
pub open spec fn values_of_ids<S: IndexIdToParent>(store: &S, ids: Seq<u32>, n: int) -> Seq<u32>
    decreases n,
{
    if n <= 0 {
        seq![]
    } else {
        values_of_ids(store, ids, n - 1) + or_empty(store.values_of(ids[n - 1] as u64))
    }
}

/// Appends the values of each id of `ids`, in turn, to `vec`.
pub fn append_values_for_ids<S: IndexIdToParent>(store: &S, ids: &[u32], vec: &mut Vec<u32>)
    requires
        store.wf(),
    ensures
        final(vec)@ == old(vec)@ + values_of_ids(store, ids@, ids@.len() as int),
{
    let mut i: usize = 0;
    while i < ids.len()
        invariant
            store.wf(),
            i <= ids@.len(),
            vec@ == old(vec)@ + values_of_ids(store, ids@, i as int),
        decreases ids@.len() - i,
    {
        let ghost before = vec@;
        match store.get_values(ids[i] as u64) {
            Some(vals) => {
                let mut vals = vals;
                vec.append(&mut vals);
            },
            None => {},
        }
        assert(vec@ =~= old(vec)@ + values_of_ids(store, ids@, i + 1));
        i = i + 1;
    }
}

} // verus!
