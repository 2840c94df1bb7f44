//! Packed integer columns: one value per id, stored little-endian in 1, 2
//! or 4 bytes, the width chosen by the largest value. The highest value of
//! the width marks an id without value.

use vstd::prelude::*;
use crate::codec::{le_u32, push_u32_le, read_u32_le, sorted};
use crate::columns::{id_to_parent_to_array_of_array, keyed_values, IndexIdToParent, ParallelArrays};

verus! {

/// The number of bytes per value for values up to `max_value_id`: the
/// highest value of the width stays free as the empty marker.
pub open spec fn bytes_required(max_value_id: u32) -> nat {
    if max_value_id < 0xff {
        1
    } else if max_value_id < 0xffff {
        2
    } else {
        4
    }
}

/// The empty marker of a width.
pub open spec fn empty_marker(width: nat) -> u32 {
    if width == 1 {
        0xff
    } else if width == 2 {
        0xffff
    } else {
        0xffff_ffff
    }
}

/// The number of bytes per value for values up to `max_value_id`.
pub fn get_bytes_required(max_value_id: u32) -> (r: usize)
    ensures
        r == bytes_required(max_value_id),
{
    if max_value_id < 0xff {
        1
    } else if max_value_id < 0xffff {
        2
    } else {
        4
    }
}

/// A packed column.
pub struct PackedColumn {
    pub width: usize,
    pub data: Vec<u8>,
}

/// The raw value stored at position `i` of `b` in width `w`.
pub open spec fn raw_value(b: Seq<u8>, w: int, i: int) -> u32 {
    if w == 1 {
        b[i] as u32
    } else if w == 2 {
        (b[2 * i] as int + 256 * b[2 * i + 1] as int) as u32
    } else {
        le_u32(b[4 * i], b[4 * i + 1], b[4 * i + 2], b[4 * i + 3])
    }
}

impl PackedColumn {
    /// The raw value stored at position `i`.
    pub open spec fn raw_at(&self, i: int) -> u32 {
        raw_value(self.data@, self.width as int, i)
    }

    /// The number of values.
    pub open spec fn size(&self) -> nat {
        if self.width == 1 || self.width == 2 || self.width == 4 {
            self.data@.len() / (self.width as nat)
        } else {
            0
        }
    }

    /// The value of id `i`, if it has one.
    pub open spec fn value_at(&self, i: int) -> Option<u32> {
        if 0 <= i < self.size() && self.raw_at(i) != empty_marker(self.width as nat) {
            Some(self.raw_at(i))
        } else {
            None
        }
    }

    /// The number of values.
    pub fn len(&self) -> (r: usize)
        ensures
            r == self.size(),
    {
        if self.width == 1 || self.width == 2 || self.width == 4 {
            self.data.len() / self.width
        } else {
            0
        }
    }

    /// The value of id `i`, if it has one.
    pub fn get(&self, i: usize) -> (r: Option<u32>)
        ensures
            r == self.value_at(i as int),
    {
        let n = self.len();
        if i >= n {
            return None;
        }
        let len = self.data.len();
        let raw = if self.width == 1 {
            self.data[i] as u32
        } else if self.width == 2 {
            assert(2 * i + 2 <= len) by (nonlinear_arith)
                requires
                    i < n,
                    n == len / 2,
            ;
            let lo = self.data[2 * i] as u32;
            let hi = self.data[2 * i + 1] as u32;
            lo + 256 * hi
        } else {
            assert(4 * i + 4 <= len) by (nonlinear_arith)
                requires
                    i < n,
                    n == len / 4,
            ;
            read_u32_le(self.data.as_slice(), 4 * i)
        };
        let marker: u32 = if self.width == 1 {
            0xff
        } else if self.width == 2 {
            0xffff
        } else {
            0xffff_ffff
        };
        if raw == marker {
            None
        } else {
            Some(raw)
        }
    }
}

/// Packs values up to `max_value_id` into the narrowest width that keeps
/// its highest value free; `None` stands for an id without value. The
/// value `u32::MAX` is the marker of the widest width, and no id.
pub fn pack_values(values: &Vec<Option<u32>>, max_value_id: u32) -> (r: PackedColumn)
    requires
        max_value_id < u32::MAX,
        forall|i: int| 0 <= i < values@.len() ==> (#[trigger] values@[i] matches Some(v) ==> v <= max_value_id),
    ensures
        r.width == bytes_required(max_value_id),
        r.size() == values@.len(),
        forall|i: int| 0 <= i < values@.len() ==> #[trigger] r.value_at(i) == values@[i],
{
    let width = get_bytes_required(max_value_id);
    let mut data: Vec<u8> = Vec::new();
    let mut k: usize = 0;
    while k < values.len()
        invariant
            width == bytes_required(max_value_id),
            max_value_id < u32::MAX,
            forall|i: int| 0 <= i < values@.len() ==> (#[trigger] values@[i] matches Some(v) ==> v <= max_value_id),
            k <= values@.len(),
            data@.len() == width * k,
            forall|i: int| 0 <= i < k ==> #[trigger] raw_value(data@, width as int, i) == match values@[i] {
                Some(v) => v,
                None => empty_marker(width as nat),
            },
        decreases values@.len() - k,
    {
        let v: u32 = match values[k] {
            Some(v) => v,
            None => if width == 1 { 0xff } else if width == 2 { 0xffff } else { 0xffff_ffff },
        };
        let ghost before = data@;
        assert(width == 1 ==> v <= 0xff);
        assert(width == 2 ==> v <= 0xffff);
        if width == 1 {
            data.push(v as u8);
            assert(data@[k as int] as u32 == v);
        } else if width == 2 {
            let lo = (v % 256) as u8;
            let hi = (v / 256) as u8;
            assert(lo as int + 256 * hi as int == v as int) by (nonlinear_arith)
                requires
                    v <= 0xffff,
                    lo as int == v as int % 256,
                    hi as int == v as int / 256,
            ;
            data.push(lo);
            data.push(hi);
            assert(2 * k + 1 == 2 * k as int + 1);
            assert(data@[2 * k as int] == lo && data@[2 * k as int + 1] == hi);
        } else {
            push_u32_le(&mut data, v);
            assert(before.len() == 4 * k);
        }
        proof {
            assert(data@.len() == width * (k + 1)) by (nonlinear_arith)
                requires
                    before.len() == width * k,
                    data@.len() == before.len() + width,
            ;
            assert forall|i: int| 0 <= i < k + 1 implies #[trigger] raw_value(data@, width as int, i) == match values@[i] {
                Some(v) => v,
                None => empty_marker(width as nat),
            } by {
                if i < k {
                    if width == 1 {
                        assert(data@[i] == before[i]);
                    } else if width == 2 {
                        assert(data@[2 * i] == before[2 * i]);
                        assert(data@[2 * i + 1] == before[2 * i + 1]);
                    } else {
                        assert(data@[4 * i] == before[4 * i]);
                        assert(data@[4 * i + 1] == before[4 * i + 1]);
                        assert(data@[4 * i + 2] == before[4 * i + 2]);
                        assert(data@[4 * i + 3] == before[4 * i + 3]);
                    }
                    assert(raw_value(data@, width as int, i) == raw_value(before, width as int, i));
                }
            }
        }
        k = k + 1;
    }
    let r = PackedColumn { width, data };
    proof {
        assert forall|i: int| 0 <= i < values@.len() implies #[trigger] r.value_at(i) == values@[i] by {
            assert(r.raw_at(i) == match values@[i] {
                Some(v) => v,
                None => empty_marker(width as nat),
            });
            assert(0 <= i < r.size()) by (nonlinear_arith)
                requires
                    data@.len() == width * values@.len(),
                    width == 1 || width == 2 || width == 4,
                    r.size() == data@.len() / (width as nat),
                    0 <= i < values@.len(),
            ;
        }
        assert(r.size() == values@.len()) by (nonlinear_arith)
            requires
                data@.len() == width * values@.len(),
                width == 1 || width == 2 || width == 4,
                r.size() == data@.len() / (width as nat),
        ;
    }
    r
}

impl IndexIdToParent for PackedColumn {
    open spec fn values_of(&self, id: u64) -> Option<Seq<u32>> {
        match self.value_at(id as int) {
            Some(v) => Some(seq![v]),
            None => None,
        }
    }

    open spec fn keys_of(&self) -> Seq<u32> {
        Seq::new(self.size(), |i: int| i as u32)
    }

    open spec fn wf(&self) -> bool {
        self.size() <= 0x1_0000_0000
    }

    fn get_values(&self, id: u64) -> (r: Option<Vec<u32>>) {
        if id >= self.len() as u64 {
            return None;
        }
        match self.get(id as usize) {
            Some(v) => {
                let mut out: Vec<u32> = Vec::new();
                out.push(v);
                assert(out@ =~= seq![v]);
                Some(out)
            },
            None => None,
        }
    }

    fn get_keys(&self) -> (r: Vec<u32>) {
        let size = self.len();
        let mut keys: Vec<u32> = Vec::new();
        let mut i: usize = 0;
        while i < size
            invariant
                size == self.size(),
                size <= 0x1_0000_0000,
                i <= size,
                keys@ == Seq::new(i as nat, |k: int| k as u32),
            decreases size - i,
        {
            keys.push(i as u32);
            assert(keys@ =~= Seq::new((i + 1) as nat, |k: int| k as u32));
            i = i + 1;
        }
        keys
    }
}

/// Whether no key follows an equal one: for sorted keys, whether each
/// child has one parent at most.
pub fn keys_unique(keys: &Vec<u32>) -> (r: bool)
    ensures
        r == forall|i: int| 0 < i < keys@.len() ==> #[trigger] keys@[i] != keys@[i - 1],
{
    let mut i: usize = 1;
    while i < keys.len()
        invariant
            1 <= i,
            forall|j: int| 0 < j < i && j < keys@.len() ==> #[trigger] keys@[j] != keys@[j - 1],
        decreases keys@.len() - i,
    {
        if keys[i] == keys[i - 1] {
            return false;
        }
        i = i + 1;
    }
    true
}

/// The number of ids of a one-parent column of `arrays`: up to its largest
/// key.
pub open spec fn one_parent_size(arrays: &ParallelArrays) -> int {
    if arrays.values1@.len() == 0 {
        0
    } else {
        arrays.values1@.last() + 1
    }
}

/// Some id has `u32::MAX` as its first parent.
pub open spec fn has_max_parent(arrays: &ParallelArrays) -> bool {
    exists|id: int| 0 <= id < one_parent_size(arrays) && #[trigger] keyed_values(arrays, id).len() > 0
        && keyed_values(arrays, id)[0] == u32::MAX
}

/// The one-parent column of a store: for each id up to its largest key,
/// the first parent, or none. `None` exactly where a first parent is
/// `u32::MAX`, which the packed column keeps as its empty marker.
pub fn to_one_parent_column(arrays: &ParallelArrays) -> (r: Option<PackedColumn>)
    requires
        arrays.wf(),
    ensures
        r is None <==> has_max_parent(arrays),
        r matches Some(c) ==> {
            &&& c.size() == one_parent_size(arrays)
            &&& forall|id: int| 0 <= id < c.size() ==> #[trigger] c.value_at(id) == if keyed_values(arrays, id).len() > 0 {
                Some(keyed_values(arrays, id)[0])
            } else {
                None::<u32>
            }
        },
{
    let lists = id_to_parent_to_array_of_array(arrays);
    let mut values: Vec<Option<u32>> = Vec::new();
    let mut max: u32 = 0;
    let mut i: usize = 0;
    while i < lists.len()
        invariant
            i <= lists@.len(),
            values@.len() == i,
            max < u32::MAX,
            forall|id: int| 0 <= id < lists@.len() ==> #[trigger] lists@[id]@ == keyed_values(arrays, id),
            forall|id: int| 0 <= id < i ==> #[trigger] values@[id] == if keyed_values(arrays, id).len() > 0 {
                Some(keyed_values(arrays, id)[0])
            } else {
                None::<u32>
            },
            forall|id: int| 0 <= id < i ==> (#[trigger] values@[id] matches Some(v) ==> v <= max),
            lists@.len() == one_parent_size(arrays),
        decreases lists@.len() - i,
    {
        let list = &lists[i];
        if list.len() > 0 {
            let v = list[0];
            if v == u32::MAX {
                assert(keyed_values(arrays, i as int)[0] == u32::MAX);
                return None;
            }
            if v > max {
                max = v;
            }
            values.push(Some(v));
        } else {
            values.push(None);
        }
        i = i + 1;
    }
    proof {
        if has_max_parent(arrays) {
            let id = choose|id: int| 0 <= id < one_parent_size(arrays) && #[trigger] keyed_values(arrays, id).len() > 0
                && keyed_values(arrays, id)[0] == u32::MAX;
            assert(values@[id] matches Some(v) && v <= max);
        }
    }
    let c = pack_values(&values, max);
    Some(c)
}

} // verus!
