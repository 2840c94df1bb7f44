//! Little-endian packing of `u32` lists into bytes, and sorting helpers.

use vstd::prelude::*;

verus! {

broadcast use vstd::seq_lib::group_to_multiset_ensures;

/// The `u32` whose little-endian bytes are `b0, b1, b2, b3`.
pub open spec fn le_u32(b0: u8, b1: u8, b2: u8, b3: u8) -> u32 {
    (b0 as int + 256 * b1 as int + 65536 * b2 as int + 16777216 * b3 as int) as u32
}

/// The `u32` values stored little-endian in `b`, four bytes each; a
/// trailing incomplete group is ignored.
pub open spec fn decode_u32s(b: Seq<u8>) -> Seq<u32> {
    Seq::new(b.len() / 4, |i: int| le_u32(b[4 * i], b[4 * i + 1], b[4 * i + 2], b[4 * i + 3]))
}

/// `s` is in non-decreasing order.
pub open spec fn sorted(s: Seq<u32>) -> bool {
    forall|i: int, j: int| 0 <= i < j < s.len() ==> s[i] <= s[j]
}

/// `s` is in non-decreasing order of the first component.
pub open spec fn sorted_by_first(s: Seq<(u32, u32)>) -> bool {
    forall|i: int, j: int| 0 <= i < j < s.len() ==> s[i].0 <= s[j].0
}

/// Reads the `u32` stored little-endian at `b[pos..pos + 4]`.
pub fn read_u32_le(b: &[u8], pos: usize) -> (r: u32)
    requires
        pos + 4 <= b@.len(),
    ensures
        r == le_u32(b@[pos as int], b@[pos + 1], b@[pos + 2], b@[pos + 3]),
{
    let b0 = b[pos];
    let b1 = b[pos + 1];
    let b2 = b[pos + 2];
    let b3 = b[pos + 3];
    let r = (b0 as u32) | ((b1 as u32) << 8u32) | ((b2 as u32) << 16u32) | ((b3 as u32) << 24u32);
    assert(r as int == b0 as int + 256 * b1 as int + 65536 * b2 as int + 16777216 * b3 as int) by (bit_vector)
        requires
            r == (b0 as u32) | ((b1 as u32) << 8u32) | ((b2 as u32) << 16u32) | ((b3 as u32) << 24u32),
    ;
    r
}

/// Appends the four little-endian bytes of `v` to `out`.
pub fn push_u32_le(out: &mut Vec<u8>, v: u32)
    ensures
        final(out)@.len() == old(out)@.len() + 4,
        final(out)@.subrange(0, old(out)@.len() as int) == old(out)@,
        le_u32(final(out)@[old(out)@.len() as int], final(out)@[old(out)@.len() as int + 1], final(out)@[old(out)@.len() as int + 2], final(out)@[old(out)@.len() as int + 3]) == v,
{
    let b0 = (v & 0xff) as u8;
    let b1 = ((v >> 8u32) & 0xff) as u8;
    let b2 = ((v >> 16u32) & 0xff) as u8;
    let b3 = ((v >> 24u32) & 0xff) as u8;
    assert(v as int == b0 as int + 256 * b1 as int + 65536 * b2 as int + 16777216 * b3 as int) by (bit_vector)
        requires
            b0 == (v & 0xff) as u8,
            b1 == ((v >> 8u32) & 0xff) as u8,
            b2 == ((v >> 16u32) & 0xff) as u8,
            b3 == ((v >> 24u32) & 0xff) as u8,
    ;
    out.push(b0);
    out.push(b1);
    out.push(b2);
    out.push(b3);
}

/// The little-endian bytes of each value in turn.
pub fn vec_to_bytes_u32(data: &[u32]) -> (r: Vec<u8>)
    ensures
        r@.len() == 4 * data@.len(),
        decode_u32s(r@) == data@,
{
    let mut out: Vec<u8> = Vec::new();
    let mut i: usize = 0;
    while i < data.len()
        invariant
            i <= data@.len(),
            out@.len() == 4 * i,
            forall|k: int| 0 <= k < i ==> le_u32(out@[4 * k], out@[4 * k + 1], out@[4 * k + 2], out@[4 * k + 3]) == data@[k],
        decreases data@.len() - i,
    {
        let ghost before = out@;
        push_u32_le(&mut out, data[i]);
        assert forall|k: int| 0 <= k <= i implies le_u32(out@[4 * k], out@[4 * k + 1], out@[4 * k + 2], out@[4 * k + 3]) == data@[k] by {
            if k < i {
                assert(out@[4 * k] == before[4 * k]);
                assert(out@[4 * k + 1] == before[4 * k + 1]);
                assert(out@[4 * k + 2] == before[4 * k + 2]);
                assert(out@[4 * k + 3] == before[4 * k + 3]);
            }
        }
        i = i + 1;
    }
    assert(decode_u32s(out@) =~= data@);
    out
}

/// The `u32` values stored little-endian in `b`, four bytes each.
pub fn bytes_to_vec_u32(b: &[u8]) -> (r: Vec<u32>)
    ensures
        r@ == decode_u32s(b@),
{
    let len = b.len();
    let n = len / 4;
    let mut out: Vec<u32> = Vec::new();
    let mut i: usize = 0;
    while i < n
        invariant
            n == b@.len() / 4,
            len == b@.len(),
            i <= n,
            out@ == decode_u32s(b@).subrange(0, i as int),
        decreases n - i,
    {
        assert(4 * i + 4 <= b@.len()) by (nonlinear_arith)
            requires
                i < n,
                n == len / 4,
                len == b@.len(),
        ;
        let v = read_u32_le(b, 4 * i);
        out.push(v);
        assert(out@ =~= decode_u32s(b@).subrange(0, i + 1));
        i = i + 1;
    }
    assert(out@ =~= decode_u32s(b@));
    out
}

/// Sorts `v` in non-decreasing order.
pub fn sort_u32(v: &mut Vec<u32>)
    ensures
        sorted(final(v)@),
        final(v)@.to_multiset() == old(v)@.to_multiset(),
{
    let mut out: Vec<u32> = Vec::new();
    let mut i: usize = 0;
    while i < v.len()
        invariant
            i <= v@.len(),
            *v == *old(v),
            sorted(out@),
            out@.to_multiset() == v@.subrange(0, i as int).to_multiset(),
        decreases v@.len() - i,
    {
        let x = v[i];
        let mut pos: usize = out.len();
        while pos > 0 && out[pos - 1] > x
            invariant
                pos <= out@.len(),
                sorted(out@),
                forall|k: int| pos <= k < out@.len() ==> out@[k] > x,
            decreases pos,
        {
            pos = pos - 1;
        }
        let ghost before = out@;
        out.insert(pos, x);
        assert(out@ == before.insert(pos as int, x));
        assert(v@.subrange(0, i + 1) == v@.subrange(0, i as int).push(x));
        i = i + 1;
    }
    assert(v@.subrange(0, v@.len() as int) == v@);
    *v = out;
}

/// The pairs of `s` whose first component is `k`, in order.
pub open spec fn with_first(s: Seq<(u32, u32)>, k: u32) -> Seq<(u32, u32)>
    decreases s.len(),
{
    if s.len() == 0 {
        seq![]
    } else if s.last().0 == k {
        with_first(s.drop_last(), k).push(s.last())
    } else {
        with_first(s.drop_last(), k)
    }
}

proof fn lemma_with_first_insert(s: Seq<(u32, u32)>, pos: int, x: (u32, u32), k: u32)
    requires
        0 <= pos <= s.len(),
        forall|j: int| pos <= j < s.len() ==> s[j].0 > x.0,
    ensures
        with_first(s.insert(pos, x), k) == if k == x.0 { with_first(s, k).push(x) } else { with_first(s, k) },
    decreases s.len(),
{
    let t = s.insert(pos, x);
    if pos == s.len() {
        assert(t.drop_last() =~= s);
    } else {
        let d = s.drop_last();
        lemma_with_first_insert(d, pos, x, k);
        assert(t.drop_last() =~= d.insert(pos, x));
        assert(t.last() == s.last());
    }
}

/// Sorts `v` by the first component, keeping pairs with equal first
/// components in their original order.
pub fn sort_pairs_by_first(v: &mut Vec<(u32, u32)>)
    ensures
        sorted_by_first(final(v)@),
        final(v)@.to_multiset() == old(v)@.to_multiset(),
        forall|k: u32| #[trigger] with_first(final(v)@, k) == with_first(old(v)@, k),
{
    let mut out: Vec<(u32, u32)> = Vec::new();
    let mut i: usize = 0;
    while i < v.len()
        invariant
            i <= v@.len(),
            *v == *old(v),
            sorted_by_first(out@),
            out@.to_multiset() == v@.subrange(0, i as int).to_multiset(),
            forall|k: u32| #[trigger] with_first(out@, k) == with_first(v@.subrange(0, i as int), k),
        decreases v@.len() - i,
    {
        let x = v[i];
        let mut pos: usize = out.len();
        while pos > 0 && out[pos - 1].0 > x.0
            invariant
                pos <= out@.len(),
                sorted_by_first(out@),
                forall|k: int| pos <= k < out@.len() ==> out@[k].0 > x.0,
            decreases pos,
        {
            pos = pos - 1;
        }
        let ghost before = out@;
        out.insert(pos, x);
        assert(out@ == before.insert(pos as int, x));
        assert(v@.subrange(0, i + 1) == v@.subrange(0, i as int).push(x));
        assert forall|k: u32| #[trigger] with_first(out@, k) == with_first(v@.subrange(0, i + 1), k) by {
            lemma_with_first_insert(before, pos as int, x, k);
            assert(v@.subrange(0, i + 1).drop_last() =~= v@.subrange(0, i as int));
        }
        i = i + 1;
    }
    assert(v@.subrange(0, v@.len() as int) == v@);
    *v = out;
}

} // verus!
