//! Records produced while indexing: join edges, boost values, term
//! statistics and the options of an index plan.

use vstd::prelude::*;
use crate::codec::{sort_pairs_by_first, sorted, sorted_by_first, with_first};
use crate::columns::ParallelArrays;

verus! {

broadcast use vstd::seq_lib::group_to_multiset_ensures;

/// The options of a full-text index: whether multi-word values are also
/// indexed word by word, and which normalized terms are left out.
pub struct FulltextIndexOptions {
    pub tokenize: bool,
    pub stopwords: Option<Vec<String>>,
}

/// The options of a boost index: how its values are read (`"int"`).
pub struct BoostIndexOptions {
    pub boost_type: String,
}

/// A boost index on a path.
pub struct Boost {
    pub boost: String,
    pub options: BoostIndexOptions,
}

/// The path whose tokens receive values.
pub struct TokenValuesConfig {
    pub path: String,
}

/// A distinct normalized term of a path: its id (its rank in the sorted
/// dictionary) and how often it occurs.
pub struct TermInfo {
    pub id: u32,
    pub num_occurences: u32,
}

/// A record that belongs to a value id.
pub trait GetValueId {
    spec fn value_id(&self) -> u32;

    fn get_value_id(&self) -> (r: u32)
        ensures
            r == self.value_id(),
    ;
}

/// A join edge: the value `valid` has the parent `parent_val_id`.
pub struct ValIdPair {
    pub valid: u32,
    pub parent_val_id: u32,
}

impl GetValueId for ValIdPair {
    open spec fn value_id(&self) -> u32 {
        self.valid
    }

    fn get_value_id(&self) -> (r: u32) {
        self.valid
    }
}

/// A boost entry: the value `valid` carries the number `value`
/// (boost value 5000 for id 5 is `5 -> 5000`).
pub struct ValIdToValue {
    pub valid: u32,
    pub value: u32,
}

impl GetValueId for ValIdToValue {
    open spec fn value_id(&self) -> u32 {
        self.valid
    }

    fn get_value_id(&self) -> (r: u32) {
        self.valid
    }
}

/// The two sides of a list of pairs as one sequence of tuples.
pub open spec fn zip(a: Seq<u32>, b: Seq<u32>) -> Seq<(u32, u32)> {
    Seq::new(a.len(), |i: int| (a[i], b[i]))
}

/// Splits pairs, sorted by their first side, into two parallel arrays.
fn pairs_to_parallel_arrays(pairs: &Vec<(u32, u32)>) -> (r: ParallelArrays)
    requires
        sorted_by_first(pairs@),
    ensures
        r.values1@.len() == r.values2@.len(),
        zip(r.values1@, r.values2@) == pairs@,
        sorted(r.values1@),
{
    let mut values1: Vec<u32> = Vec::new();
    let mut values2: Vec<u32> = Vec::new();
    let mut i: usize = 0;
    while i < pairs.len()
        invariant
            i <= pairs@.len(),
            values1@.len() == i,
            values2@.len() == i,
            zip(values1@, values2@) == pairs@.subrange(0, i as int),
        decreases pairs@.len() - i,
    {
        values1.push(pairs[i].0);
        values2.push(pairs[i].1);
        assert(zip(values1@, values2@) =~= pairs@.subrange(0, i + 1));
        i = i + 1;
    }
    assert(pairs@.subrange(0, pairs@.len() as int) == pairs@);
    assert forall|a: int, b: int| 0 <= a < b < values1@.len() implies values1@[a] <= values1@[b] by {
        assert(zip(values1@, values2@)[a].0 == values1@[a]);
        assert(zip(values1@, values2@)[b].0 == values1@[b]);
    }
    ParallelArrays { values1, values2 }
}

/// The join edges as (value id, parent id) tuples.
pub open spec fn edge_tuples(t: Seq<ValIdPair>) -> Seq<(u32, u32)> {
    t.map_values(|p: ValIdPair| (p.valid, p.parent_val_id))
}

/// The boost entries as (value id, value) tuples.
pub open spec fn boost_tuples(t: Seq<ValIdToValue>) -> Seq<(u32, u32)> {
    t.map_values(|p: ValIdToValue| (p.valid, p.value))
}

/// Sorts join edges by value id, keeping edges of one value in order, and
/// splits them into value ids and parent ids.
pub fn valid_pair_to_parallel_arrays(tuples: &mut Vec<ValIdPair>) -> (r: ParallelArrays)
    ensures
        r.values1@.len() == r.values2@.len(),
        sorted(r.values1@),
        zip(r.values1@, r.values2@).to_multiset() == edge_tuples(old(tuples)@).to_multiset(),
        forall|k: u32| #[trigger] with_first(zip(r.values1@, r.values2@), k) == with_first(edge_tuples(old(tuples)@), k),
        edge_tuples(final(tuples)@) == zip(r.values1@, r.values2@),
{
    let mut pairs: Vec<(u32, u32)> = Vec::new();
    let mut i: usize = 0;
    while i < tuples.len()
        invariant
            i <= tuples@.len(),
            *tuples == *old(tuples),
            pairs@ == edge_tuples(tuples@).subrange(0, i as int),
        decreases tuples@.len() - i,
    {
        pairs.push((tuples[i].valid, tuples[i].parent_val_id));
        assert(pairs@ =~= edge_tuples(tuples@).subrange(0, i + 1));
        i = i + 1;
    }
    assert(edge_tuples(tuples@).subrange(0, tuples@.len() as int) == edge_tuples(tuples@));
    sort_pairs_by_first(&mut pairs);
    let r = pairs_to_parallel_arrays(&pairs);
    let mut sorted_tuples: Vec<ValIdPair> = Vec::new();
    let mut j: usize = 0;
    while j < pairs.len()
        invariant
            j <= pairs@.len(),
            sorted_tuples@.len() == j,
            edge_tuples(sorted_tuples@) == pairs@.subrange(0, j as int),
        decreases pairs@.len() - j,
    {
        let ghost before = sorted_tuples@;
        let pair = pairs[j];
        sorted_tuples.push(ValIdPair { valid: pair.0, parent_val_id: pair.1 });
        assert forall|k: int| 0 <= k <= j implies #[trigger] edge_tuples(sorted_tuples@)[k] == pairs@[k] by {
            if k < j {
                assert(sorted_tuples@[k] == before[k]);
                assert(edge_tuples(before)[k] == pairs@.subrange(0, j as int)[k]);
            }
        }
        assert(edge_tuples(sorted_tuples@) =~= pairs@.subrange(0, j + 1));
        j = j + 1;
    }
    assert(pairs@.subrange(0, pairs@.len() as int) == pairs@);
    *tuples = sorted_tuples;
    r
}

/// Sorts boost entries by value id, keeping entries of one value in order,
/// and splits them into value ids and values.
pub fn boost_pair_to_parallel_arrays(tuples: &mut Vec<ValIdToValue>) -> (r: ParallelArrays)
    ensures
        r.values1@.len() == r.values2@.len(),
        sorted(r.values1@),
        zip(r.values1@, r.values2@).to_multiset() == boost_tuples(old(tuples)@).to_multiset(),
        forall|k: u32| #[trigger] with_first(zip(r.values1@, r.values2@), k) == with_first(boost_tuples(old(tuples)@), k),
        boost_tuples(final(tuples)@) == zip(r.values1@, r.values2@),
{
    let mut pairs: Vec<(u32, u32)> = Vec::new();
    let mut i: usize = 0;
    while i < tuples.len()
        invariant
            i <= tuples@.len(),
            *tuples == *old(tuples),
            pairs@ == boost_tuples(tuples@).subrange(0, i as int),
        decreases tuples@.len() - i,
    {
        pairs.push((tuples[i].valid, tuples[i].value));
        assert(pairs@ =~= boost_tuples(tuples@).subrange(0, i + 1));
        i = i + 1;
    }
    assert(boost_tuples(tuples@).subrange(0, tuples@.len() as int) == boost_tuples(tuples@));
    sort_pairs_by_first(&mut pairs);
    let r = pairs_to_parallel_arrays(&pairs);
    let mut sorted_tuples: Vec<ValIdToValue> = Vec::new();
    let mut j: usize = 0;
    while j < pairs.len()
        invariant
            j <= pairs@.len(),
            sorted_tuples@.len() == j,
            boost_tuples(sorted_tuples@) == pairs@.subrange(0, j as int),
        decreases pairs@.len() - j,
    {
        let ghost before = sorted_tuples@;
        let pair = pairs[j];
        sorted_tuples.push(ValIdToValue { valid: pair.0, value: pair.1 });
        assert forall|k: int| 0 <= k <= j implies #[trigger] boost_tuples(sorted_tuples@)[k] == pairs@[k] by {
            if k < j {
                assert(sorted_tuples@[k] == before[k]);
                assert(boost_tuples(before)[k] == pairs@.subrange(0, j as int)[k]);
            }
        }
        assert(boost_tuples(sorted_tuples@) =~= pairs@.subrange(0, j + 1));
        j = j + 1;
    }
    assert(pairs@.subrange(0, pairs@.len() as int) == pairs@);
    *tuples = sorted_tuples;
    r
}

} // verus!
