//! The bridge between the metadata store and the approximate
//! nearest-neighbour index: which entries an index is built from, how wide a
//! query searches, and how a query's answer is ranked.
use vstd::prelude::*;

use crate::embedding::Embedding;
use crate::feature::{feature_views, Feature, FeatureView};

verus! {

#[derive(Debug, Clone, Copy, PartialEq, Eq, Structural)]
pub enum IndexError {
    /// A feature has no stable id, or one that is not a valid index key.
    InvalidKey,
    /// The queried id is not in the committed index.
    UnknownIndexKey,
}

/// One entry of the index: a stable id and its embedding.
pub struct IndexEntry {
    pub id: u32,
    pub embedding: Embedding,
}

/// Candidates searched per requested result and per tree.
pub const SEARCH_BREADTH_FACTOR: usize = 15;

/// Whether a feature carries a stable id that is a valid index key.
pub open spec fn has_index_key(f: FeatureView) -> bool {
    f.id matches Some(id) && 0 <= id <= u32::MAX
}

/// The index entries of a sequence of features.
pub open spec fn entries_spec(fs: Seq<FeatureView>) -> Seq<(u32, Seq<u32>)> {
    fs.map_values(|f: FeatureView| (f.id.unwrap() as u32, f.embedding))
}

pub open spec fn entry_views(es: Seq<IndexEntry>) -> Seq<(u32, Seq<u32>)> {
    es.map_values(|e: IndexEntry| (e.id, e.embedding@))
}

/// The entries an index is built from: one per feature, keyed by its stable
/// id. Fails with `InvalidKey` where a feature has no id that fits a key.
pub fn index_entries(features: &Vec<Feature>) -> (r: Result<Vec<IndexEntry>, IndexError>)
    ensures
        r is Ok <==> forall|i: int|
            0 <= i < features@.len() ==> #[trigger] has_index_key(feature_views(features@)[i]),
        r matches Ok(es) ==> entry_views(es@) == entries_spec(feature_views(features@)),
        r is Err ==> r == Err::<Vec<IndexEntry>, IndexError>(IndexError::InvalidKey),
{
    let ghost views = feature_views(features@);
    let mut es: Vec<IndexEntry> = Vec::new();
    let mut i: usize = 0;
    while i < features.len()
        invariant
            i <= features.len(),
            views == feature_views(features@),
            es@.len() == i,
            forall|k: int| 0 <= k < i ==> #[trigger] has_index_key(views[k]),
            forall|k: int|
                0 <= k < i ==> (#[trigger] es@[k]).id == views[k].id.unwrap() as u32 && es@[k].embedding@
                    == views[k].embedding,
        decreases features.len() - i,
    {
        let f = &features[i];
        match f.id() {
            Some(id) => {
                if *id < 0 || *id > u32::MAX as i64 {
                    assert(!has_index_key(views[i as int]));
                    return Err(IndexError::InvalidKey);
                }
                es.push(IndexEntry { id: *id as u32, embedding: f.feature_vector().duplicate() });
            },
            None => {
                assert(!has_index_key(views[i as int]));
                return Err(IndexError::InvalidKey);
            },
        }
        i = i + 1;
    }
    assert(entry_views(es@) =~= entries_spec(views));
    Ok(es)
}

/// How many candidates a query for `num_results` neighbours over
/// `num_trees` trees collects: `num_results * num_trees * SEARCH_BREADTH_FACTOR`.
/// `None` where that is zero or does not fit a `usize`, in which case the
/// index picks its own breadth.
pub fn search_breadth(num_results: usize, num_trees: usize) -> (r: Option<usize>)
    ensures
        ({
            let b = num_results * num_trees * SEARCH_BREADTH_FACTOR;
            r == if 0 < b <= usize::MAX {
                Some(b as usize)
            } else {
                None::<usize>
            }
        }),
{
    match num_results.checked_mul(num_trees) {
        None => {
            assert(num_results * num_trees * 15 >= num_results * num_trees) by (nonlinear_arith);
            None
        },
        Some(p) => match p.checked_mul(SEARCH_BREADTH_FACTOR) {
            None => None,
            Some(b) => if b == 0 {
                None
            } else {
                Some(b)
            },
        },
    }
}

/// `ids` with each id kept at its first place only.
pub open spec fn first_occurrences(ids: Seq<u32>) -> Seq<u32>
    decreases ids.len(),
{
    if ids.len() == 0 {
        Seq::empty()
    } else {
        let front = first_occurrences(ids.drop_last());
        if front.contains(ids.last()) {
            front
        } else {
            front.push(ids.last())
        }
    }
}

/// The ranked neighbours a query returns, given the index's answer (`None`
/// where the queried id is not in the index): its ids in rank order, each
/// once, at most `num_results` of them.
pub open spec fn ranked_spec(answer: Option<Seq<u32>>, num_results: nat) -> Result<Seq<u32>, IndexError> {
    match answer {
        None => Err(IndexError::UnknownIndexKey),
        Some(ids) => {
            let d = first_occurrences(ids);
            Ok(if num_results < d.len() { d.take(num_results as int) } else { d })
        },
    }
}

/// The index's answer as plain values.
pub open spec fn answer_view(answer: Option<Vec<u32>>) -> Option<Seq<u32>> {
    match answer {
        None => None,
        Some(a) => Some(a@),
    }
}

proof fn lemma_first_occurrences_lead(ids: Seq<u32>)
    requires
        ids.len() > 0,
    ensures
        first_occurrences(ids).len() > 0,
        first_occurrences(ids)[0] == ids[0],
    decreases ids.len(),
{
    if ids.len() > 1 {
        lemma_first_occurrences_lead(ids.drop_last());
        assert(ids.drop_last()[0] == ids[0]);
    } else {
        assert(first_occurrences(ids.drop_last()) =~= Seq::<u32>::empty());
        assert(first_occurrences(ids) == Seq::<u32>::empty().push(ids.last()));
    }
}

/// Ranking keeps the index's nearest answer first and never returns more
/// than `num_results` ids; where the answer holds no more than that many
/// distinct ids, all of them are returned.
pub proof fn lemma_ranking_keeps_lead_and_bound(ids: Seq<u32>, num_results: nat)
    ensures
        ranked_spec(Some(ids), num_results) matches Ok(r) && r.len() <= num_results && (ids.len() > 0
            && num_results >= 1 ==> r[0] == ids[0]) && (first_occurrences(ids).len() <= num_results
            ==> r == first_occurrences(ids)),
{
    if ids.len() > 0 {
        lemma_first_occurrences_lead(ids);
    }
}

fn contains_id(ids: &Vec<u32>, id: u32) -> (r: bool)
    ensures
        r == ids@.contains(id),
{
    let mut j: usize = 0;
    while j < ids.len()
        invariant
            j <= ids.len(),
            forall|k: int| 0 <= k < j ==> ids@[k] != id,
        decreases ids.len() - j,
    {
        if ids[j] == id {
            return true;
        }
        j = j + 1;
    }
    false
}

pub fn ranked_neighbours(answer: Option<Vec<u32>>, num_results: usize) -> (r: Result<Vec<u32>, IndexError>)
    ensures
        r matches Ok(v) ==> ranked_spec(answer_view(answer), num_results as nat) == Ok::<
            Seq<u32>,
            IndexError,
        >(v@),
        r matches Err(e) ==> ranked_spec(answer_view(answer), num_results as nat) == Err::<
            Seq<u32>,
            IndexError,
        >(e),
{
    match answer {
        None => Err(IndexError::UnknownIndexKey),
        Some(ids) => {
            let mut d: Vec<u32> = Vec::new();
            let mut i: usize = 0;
            while i < ids.len()
                invariant
                    i <= ids.len(),
                    d@ == first_occurrences(ids@.subrange(0, i as int)),
                decreases ids.len() - i,
            {
                assert(ids@.subrange(0, i + 1).drop_last() =~= ids@.subrange(0, i as int));
                if !contains_id(&d, ids[i]) {
                    d.push(ids[i]);
                }
                i = i + 1;
            }
            assert(ids@.subrange(0, ids.len() as int) =~= ids@);
            if num_results < d.len() {
                d.truncate(num_results);
            }
            Ok(d)
        },
    }
}

} // verus!
