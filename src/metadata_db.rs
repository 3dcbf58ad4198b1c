//! The metadata store: the single authority that mints stable ids, caches
//! embeddings by file path, and lists files page by page.
//!
//! Rows are held in id order. Ids are minted one above the largest id in use,
//! so a path keeps the id it was first given for as long as the store lives.
//! Persisting the rows is left to the caller: `restore_root` and
//! `restore_sample` rebuild a store from saved rows, and `root_row` and
//! `sample_row` hand rows out for saving.
use vstd::prelude::*;

use crate::embedding::{bincode_u32s, Embedding, NUM_DIMENSIONS};
use crate::feature::{feature_views, Feature, FeatureView};

verus! {

#[derive(Debug, Clone, Copy, PartialEq, Eq, Structural)]
pub enum StoreError {
    /// The next id would not fit in an `i64`.
    IdSpaceExhausted,
    /// A saved row breaks the store's rules: its id is not above the ids
    /// before it, its path is already present, or its embedding cannot be read.
    MalformedRow,
}

/// A file known to the store, with its stable id.
pub struct AudioFile {
    id: i64,
    path: String,
}

impl View for AudioFile {
    type V = (i64, Seq<char>);

    closed spec fn view(&self) -> (i64, Seq<char>) {
        (self.id, self.path@)
    }
}

impl AudioFile {
    pub fn id(&self) -> (r: i64)
        ensures
            r == self@.0,
    {
        self.id
    }

    pub fn path(&self) -> (r: &str)
        ensures
            r@ == self@.1,
    {
        self.path.as_str()
    }
}

/// The views of a sequence of files.
pub open spec fn audio_views(s: Seq<AudioFile>) -> Seq<(i64, Seq<char>)> {
    s.map_values(|f: AudioFile| f@)
}

/// One sample row, as plain values.
pub struct SampleRecord {
    pub id: i64,
    pub root_id: i64,
    pub path: Seq<char>,
    pub embedding: Seq<u32>,
}

/// The whole store: analysis roots `(id, path)` and sample rows, each in id
/// order.
pub struct StoreView {
    pub roots: Seq<(i64, Seq<char>)>,
    pub samples: Seq<SampleRecord>,
}

pub open spec fn root_ids(r: Seq<(i64, Seq<char>)>) -> Seq<i64> {
    r.map_values(|x: (i64, Seq<char>)| x.0)
}

pub open spec fn root_paths(r: Seq<(i64, Seq<char>)>) -> Seq<Seq<char>> {
    r.map_values(|x: (i64, Seq<char>)| x.1)
}

pub open spec fn sample_ids(s: Seq<SampleRecord>) -> Seq<i64> {
    s.map_values(|x: SampleRecord| x.id)
}

pub open spec fn sample_paths(s: Seq<SampleRecord>) -> Seq<Seq<char>> {
    s.map_values(|x: SampleRecord| x.path)
}

/// Ids are positive and strictly increasing.
pub open spec fn ascending_ids(ids: Seq<i64>) -> bool {
    &&& forall|i: int| 0 <= i < ids.len() ==> ids[i] >= 1
    &&& forall|i: int, j: int| 0 <= i < j < ids.len() ==> ids[i] < ids[j]
}

/// No path occurs twice.
pub open spec fn distinct_paths(paths: Seq<Seq<char>>) -> bool {
    forall|i: int, j: int| 0 <= i < j < paths.len() ==> paths[i] != paths[j]
}

pub open spec fn store_wf(v: StoreView) -> bool {
    &&& ascending_ids(root_ids(v.roots))
    &&& distinct_paths(root_paths(v.roots))
    &&& ascending_ids(sample_ids(v.samples))
    &&& distinct_paths(sample_paths(v.samples))
    &&& forall|i: int| 0 <= i < v.samples.len() ==> #[trigger] v.samples[i].embedding.len() == NUM_DIMENSIONS
}

/// The id the next new row gets: one above the last, or 1 in an empty table.
pub open spec fn next_id(ids: Seq<i64>) -> int {
    if ids.len() == 0 {
        1
    } else {
        ids.last() + 1
    }
}

/// Where `p` stands in `paths`, or -1.
pub open spec fn position_of(paths: Seq<Seq<char>>, p: Seq<char>) -> int {
    if exists|i: int| 0 <= i < paths.len() && paths[i] == p {
        choose|i: int| 0 <= i < paths.len() && paths[i] == p
    } else {
        -1
    }
}

/// Where `id` stands in `ids`, or -1.
pub open spec fn position_of_id(ids: Seq<i64>, id: i64) -> int {
    if exists|i: int| 0 <= i < ids.len() && ids[i] == id {
        choose|i: int| 0 <= i < ids.len() && ids[i] == id
    } else {
        -1
    }
}

/// Registering an analysis root: a known path keeps its id, a new one gets
/// the next id.
pub open spec fn ensure_root_spec(v: StoreView, dir: Seq<char>) -> (StoreView, Result<i64, StoreError>) {
    let k = position_of(root_paths(v.roots), dir);
    let id = next_id(root_ids(v.roots));
    if k >= 0 {
        (v, Ok(v.roots[k].0))
    } else if id > i64::MAX {
        (v, Err(StoreError::IdSpaceExhausted))
    } else {
        (StoreView { roots: v.roots.push((id as i64, dir)), ..v }, Ok(id as i64))
    }
}

/// Inserting a sample: a known path keeps its id and its cached embedding, a
/// new one gets the next id.
pub open spec fn insert_spec(v: StoreView, path: Seq<char>, root_id: i64, embedding: Seq<u32>) -> (
    StoreView,
    Result<i64, StoreError>,
) {
    let k = position_of(sample_paths(v.samples), path);
    let id = next_id(sample_ids(v.samples));
    if k >= 0 {
        (v, Ok(v.samples[k].id))
    } else if id > i64::MAX {
        (v, Err(StoreError::IdSpaceExhausted))
    } else {
        (
            StoreView {
                samples: v.samples.push(SampleRecord { id: id as i64, root_id, path, embedding }),
                ..v
            },
            Ok(id as i64),
        )
    }
}

/// The page of files that starts at position `offset` (in id order) and holds
/// at most `limit` of them; all the rest where there is no limit.
pub open spec fn list_spec(v: StoreView, offset: u32, limit: Option<u32>) -> Seq<(i64, Seq<char>)> {
    let n = v.samples.len() as int;
    let start = if offset < n { offset as int } else { n };
    let end = match limit {
        None => n,
        Some(l) => if offset + l < n { offset + l } else { n },
    };
    v.samples.subrange(start, end).map_values(|s: SampleRecord| (s.id, s.path))
}

/// The files with the given ids, in the order of `ids`; an id that the store
/// does not hold is passed over.
pub open spec fn resolve_spec(samples: Seq<SampleRecord>, ids: Seq<u32>) -> Seq<(i64, Seq<char>)>
    decreases ids.len(),
{
    if ids.len() == 0 {
        Seq::empty()
    } else {
        let prev = resolve_spec(samples, ids.drop_last());
        let k = position_of_id(sample_ids(samples), ids.last() as i64);
        if k >= 0 {
            prev.push((samples[k].id, samples[k].path))
        } else {
            prev
        }
    }
}

/// Every cached embedding, tagged with its path and id.
pub open spec fn stored_features(v: StoreView) -> Seq<FeatureView> {
    v.samples.map_values(
        |s: SampleRecord| FeatureView { source_file: s.path, embedding: s.embedding, id: Some(s.id) },
    )
}

/// Whether a saved row may follow the rows before it.
pub open spec fn may_follow(ids: Seq<i64>, paths: Seq<Seq<char>>, id: i64, path: Seq<char>) -> bool {
    id >= next_id(ids) && position_of(paths, path) == -1
}

struct AnalysisRoot {
    id: i64,
    path: String,
}

struct Sample {
    id: i64,
    root_id: i64,
    path: String,
    embedding: Embedding,
}

/// A sample row as it is saved: the embedding is encoded.
pub struct SampleRow {
    pub id: i64,
    pub root_id: i64,
    pub path: String,
    pub blob: Vec<u8>,
}

pub struct MetadataDatabase {
    roots: Vec<AnalysisRoot>,
    samples: Vec<Sample>,
}

impl View for MetadataDatabase {
    type V = StoreView;

    closed spec fn view(&self) -> StoreView {
        StoreView {
            roots: self.roots@.map_values(|r: AnalysisRoot| (r.id, r.path@)),
            samples: self.samples@.map_values(
                |s: Sample|
                    SampleRecord { id: s.id, root_id: s.root_id, path: s.path@, embedding: s.embedding@ },
            ),
        }
    }
}

proof fn lemma_position(paths: Seq<Seq<char>>, p: Seq<char>, i: int)
    requires
        distinct_paths(paths),
        0 <= i < paths.len(),
        paths[i] == p,
    ensures
        position_of(paths, p) == i,
{
    assert(exists|j: int| 0 <= j < paths.len() && paths[j] == p);
    let j = position_of(paths, p);
    if j != i {
        if j < i {
            assert(paths[j] != paths[i]);
        } else {
            assert(paths[i] != paths[j]);
        }
    }
}

proof fn lemma_position_of_id(ids: Seq<i64>, id: i64, i: int)
    requires
        ascending_ids(ids),
        0 <= i < ids.len(),
        ids[i] == id,
    ensures
        position_of_id(ids, id) == i,
{
    assert(exists|j: int| 0 <= j < ids.len() && ids[j] == id);
    let j = position_of_id(ids, id);
    if j != i {
        if j < i {
            assert(ids[j] < ids[i]);
        } else {
            assert(ids[i] < ids[j]);
        }
    }
}

/// Appending a row whose id is above the others and whose path is new keeps
/// the rules of a table.
proof fn lemma_append_keeps_rules(ids: Seq<i64>, paths: Seq<Seq<char>>, id: i64, p: Seq<char>)
    requires
        ascending_ids(ids),
        distinct_paths(paths),
        id >= next_id(ids),
        position_of(paths, p) == -1,
    ensures
        ascending_ids(ids.push(id)),
        distinct_paths(paths.push(p)),
{
    if ids.len() > 0 {
        assert forall|i: int| 0 <= i < ids.len() implies ids[i] < id by {
            if i < ids.len() - 1 {
                assert(ids[i] < ids[ids.len() - 1]);
            }
        }
    }
    assert forall|i: int| 0 <= i < paths.len() implies paths[i] != p by {
        if paths[i] == p {
            assert(exists|j: int| 0 <= j < paths.len() && paths[j] == p);
        }
    }
    assert forall|i: int, j: int| 0 <= i < j < paths.push(p).len() implies paths.push(p)[i] != paths.push(
        p,
    )[j] by {
        if j == paths.len() {
            assert(paths.push(p)[j] == p);
        } else {
            assert(paths[i] != paths[j]);
        }
    }
}

/// Inserting the same path twice: the second call returns the id the first
/// returned and changes nothing, whatever root and embedding it is given.
pub proof fn lemma_insert_is_idempotent(
    v: StoreView,
    path: Seq<char>,
    root_a: i64,
    embedding_a: Seq<u32>,
    root_b: i64,
    embedding_b: Seq<u32>,
)
    requires
        store_wf(v),
    ensures
        ({
            let (v1, r1) = insert_spec(v, path, root_a, embedding_a);
            let (v2, r2) = insert_spec(v1, path, root_b, embedding_b);
            r1 is Ok ==> r2 == r1 && v2 == v1
        }),
{
    let (v1, r1) = insert_spec(v, path, root_a, embedding_a);
    if r1 is Ok && position_of(sample_paths(v.samples), path) == -1 {
        let ids = sample_ids(v.samples);
        let paths = sample_paths(v.samples);
        lemma_append_keeps_rules(ids, paths, next_id(ids) as i64, path);
        assert(sample_paths(v1.samples) =~= paths.push(path));
        lemma_position(sample_paths(v1.samples), path, v.samples.len() as int);
    }
}

/// An insertion keeps the store's rules.
pub proof fn lemma_insert_keeps_wf(v: StoreView, path: Seq<char>, root_id: i64, embedding: Seq<u32>)
    requires
        store_wf(v),
        embedding.len() == NUM_DIMENSIONS,
    ensures
        store_wf(insert_spec(v, path, root_id, embedding).0),
{
    let (v1, r1) = insert_spec(v, path, root_id, embedding);
    if r1 is Ok && position_of(sample_paths(v.samples), path) == -1 {
        let ids = sample_ids(v.samples);
        let paths = sample_paths(v.samples);
        let id = next_id(ids) as i64;
        lemma_append_keeps_rules(ids, paths, id, path);
        assert(sample_ids(v1.samples) =~= ids.push(id));
        assert(sample_paths(v1.samples) =~= paths.push(path));
    }
}

/// Registering the same analysis root twice returns the same id and the
/// second call changes nothing.
pub proof fn lemma_ensure_root_is_idempotent(v: StoreView, dir: Seq<char>)
    requires
        store_wf(v),
    ensures
        ({
            let (v1, r1) = ensure_root_spec(v, dir);
            let (v2, r2) = ensure_root_spec(v1, dir);
            r1 is Ok ==> r2 == r1 && v2 == v1
        }),
{
    let (v1, r1) = ensure_root_spec(v, dir);
    if r1 is Ok && position_of(root_paths(v.roots), dir) == -1 {
        let ids = root_ids(v.roots);
        let paths = root_paths(v.roots);
        lemma_append_keeps_rules(ids, paths, next_id(ids) as i64, dir);
        assert(root_paths(v1.roots) =~= paths.push(dir));
        lemma_position(root_paths(v1.roots), dir, v.roots.len() as int);
    }
}

/// An insertion keeps every row that was there, with its id, path and
/// embedding, and leaves the analysis roots alone.
pub proof fn lemma_insert_keeps_rows(v: StoreView, path: Seq<char>, root_id: i64, embedding: Seq<u32>)
    ensures
        ({
            let (v1, r1) = insert_spec(v, path, root_id, embedding);
            &&& v1.roots == v.roots
            &&& v1.samples.len() >= v.samples.len()
            &&& v1.samples.subrange(0, v.samples.len() as int) == v.samples
        }),
{
    let (v1, r1) = insert_spec(v, path, root_id, embedding);
    assert(v1.samples.subrange(0, v.samples.len() as int) =~= v.samples);
}

/// After a successful insertion the path is present, under the id returned.
pub proof fn lemma_inserted_path_is_present(v: StoreView, path: Seq<char>, root_id: i64, embedding: Seq<u32>)
    requires
        store_wf(v),
    ensures
        ({
            let (v1, r1) = insert_spec(v, path, root_id, embedding);
            r1 matches Ok(id) ==> exists|i: int|
                0 <= i < v1.samples.len() && v1.samples[i].path == path && v1.samples[i].id == id
        }),
{
    let (v1, r1) = insert_spec(v, path, root_id, embedding);
    let k = position_of(sample_paths(v.samples), path);
    if k >= 0 {
        assert(exists|i: int| 0 <= i < v.samples.len() && sample_paths(v.samples)[i] == path);
        assert(v1.samples[k].path == path);
    } else if r1 is Ok {
        let n = v.samples.len() as int;
        assert(v1.samples[n].path == path);
    }
}

/// Resolving ids that the store holds gives one file for each id, in the
/// order the ids were given.
pub proof fn lemma_resolve_keeps_order(v: StoreView, ids: Seq<u32>)
    requires
        store_wf(v),
        forall|j: int| 0 <= j < ids.len() ==> #[trigger] sample_ids(v.samples).contains(ids[j] as i64),
    ensures
        resolve_spec(v.samples, ids).len() == ids.len(),
        forall|j: int| 0 <= j < ids.len() ==> #[trigger] resolve_spec(v.samples, ids)[j].0 == ids[j] as i64,
    decreases ids.len(),
{
    if ids.len() > 0 {
        let front = ids.drop_last();
        assert forall|j: int| 0 <= j < front.len() implies #[trigger] sample_ids(v.samples).contains(
            front[j] as i64,
        ) by {
            assert(front[j] == ids[j]);
            assert(sample_ids(v.samples).contains(ids[j] as i64));
        }
        lemma_resolve_keeps_order(v, front);
        let last = ids.last() as i64;
        assert(sample_ids(v.samples).contains(ids[ids.len() - 1] as i64));
        let i = choose|i: int| 0 <= i < sample_ids(v.samples).len() && sample_ids(v.samples)[i] == last;
        lemma_position_of_id(sample_ids(v.samples), last, i);
        let r = resolve_spec(v.samples, ids);
        assert forall|j: int| 0 <= j < ids.len() implies #[trigger] r[j].0 == ids[j] as i64 by {
            if j < ids.len() - 1 {
                assert(r[j] == resolve_spec(v.samples, front)[j]);
                assert(front[j] == ids[j]);
            }
        }
    }
}

/// Two pages that meet: the page of `a` files at `offset` followed by the
/// page of `b` files right after it is the page of `a + b` files at
/// `offset`, with no file missing between them and none in both.
pub proof fn lemma_adjacent_pages(v: StoreView, offset: u32, a: u32, b: u32)
    requires
        store_wf(v),
        offset + a <= u32::MAX,
        a + b <= u32::MAX,
    ensures
        list_spec(v, offset, Some(a)) + list_spec(v, (offset + a) as u32, Some(b)) == list_spec(
            v,
            offset,
            Some((a + b) as u32),
        ),
        forall|i: int, j: int|
            0 <= i < list_spec(v, offset, Some(a)).len() && 0 <= j < list_spec(
                v,
                (offset + a) as u32,
                Some(b),
            ).len() ==> #[trigger] list_spec(v, offset, Some(a))[i].0 != #[trigger] list_spec(
                v,
                (offset + a) as u32,
                Some(b),
            )[j].0,
{
    let p = list_spec(v, offset, Some(a));
    let q = list_spec(v, (offset + a) as u32, Some(b));
    let n = v.samples.len() as int;
    assert(p + q =~= list_spec(v, offset, Some((a + b) as u32)));
    let ids = sample_ids(v.samples);
    assert forall|i: int, j: int| 0 <= i < p.len() && 0 <= j < q.len() implies p[i].0 != q[j].0 by {
        let x = offset + i;
        let y = offset + a + j;
        assert(p[i].0 == ids[x]);
        assert(q[j].0 == ids[y]);
        assert(ids[x] < ids[y]);
    }
}

impl MetadataDatabase {
    pub open spec fn wf(&self) -> bool {
        store_wf(self@)
    }

    /// An empty store.
    pub fn new() -> (r: MetadataDatabase)
        ensures
            r.wf(),
            r@.roots.len() == 0,
            r@.samples.len() == 0,
    {
        let r = MetadataDatabase { roots: Vec::new(), samples: Vec::new() };
        assert(r@.roots =~= Seq::empty());
        assert(r@.samples =~= Seq::empty());
        r
    }

    pub fn root_count(&self) -> (r: usize)
        ensures
            r == self@.roots.len(),
    {
        self.roots.len()
    }

    pub fn sample_count(&self) -> (r: usize)
        ensures
            r == self@.samples.len(),
    {
        self.samples.len()
    }

    fn find_root(&self, dir: &String) -> (r: Option<usize>)
        requires
            self.wf(),
        ensures
            match r {
                Some(i) => i < self@.roots.len() && position_of(root_paths(self@.roots), dir@) == i,
                None => position_of(root_paths(self@.roots), dir@) == -1,
            },
    {
        let ghost paths = root_paths(self@.roots);
        let mut i: usize = 0;
        while i < self.roots.len()
            invariant
                i <= self.roots.len(),
                paths == root_paths(self@.roots),
                self.wf(),
                forall|j: int| 0 <= j < i ==> paths[j] != dir@,
            decreases self.roots.len() - i,
        {
            if self.roots[i].path == *dir {
                proof {
                    lemma_position(paths, dir@, i as int);
                }
                return Some(i);
            }
            i = i + 1;
        }
        None
    }

    fn find_path(&self, path: &String) -> (r: Option<usize>)
        requires
            self.wf(),
        ensures
            match r {
                Some(i) => i < self@.samples.len() && position_of(sample_paths(self@.samples), path@)
                    == i,
                None => position_of(sample_paths(self@.samples), path@) == -1,
            },
    {
        let ghost paths = sample_paths(self@.samples);
        let mut i: usize = 0;
        while i < self.samples.len()
            invariant
                i <= self.samples.len(),
                paths == sample_paths(self@.samples),
                self.wf(),
                forall|j: int| 0 <= j < i ==> paths[j] != path@,
            decreases self.samples.len() - i,
        {
            if self.samples[i].path == *path {
                proof {
                    lemma_position(paths, path@, i as int);
                }
                return Some(i);
            }
            i = i + 1;
        }
        None
    }

    fn find_id(&self, id: i64) -> (r: Option<usize>)
        requires
            self.wf(),
        ensures
            match r {
                Some(i) => i < self@.samples.len() && position_of_id(sample_ids(self@.samples), id)
                    == i,
                None => position_of_id(sample_ids(self@.samples), id) == -1,
            },
    {
        let ghost ids = sample_ids(self@.samples);
        let mut i: usize = 0;
        while i < self.samples.len()
            invariant
                i <= self.samples.len(),
                ids == sample_ids(self@.samples),
                self.wf(),
                forall|j: int| 0 <= j < i ==> ids[j] != id,
            decreases self.samples.len() - i,
        {
            if self.samples[i].id == id {
                proof {
                    lemma_position_of_id(ids, id, i as int);
                }
                return Some(i);
            }
            i = i + 1;
        }
        None
    }

    fn next_root_id(&self) -> (r: Option<i64>)
        ensures
            match r {
                Some(id) => id == next_id(root_ids(self@.roots)),
                None => next_id(root_ids(self@.roots)) > i64::MAX,
            },
    {
        let n = self.roots.len();
        if n == 0 {
            Some(1)
        } else if self.roots[n - 1].id == i64::MAX {
            None
        } else {
            Some(self.roots[n - 1].id + 1)
        }
    }

    fn next_sample_id(&self) -> (r: Option<i64>)
        ensures
            match r {
                Some(id) => id == next_id(sample_ids(self@.samples)),
                None => next_id(sample_ids(self@.samples)) > i64::MAX,
            },
    {
        let n = self.samples.len();
        if n == 0 {
            Some(1)
        } else if self.samples[n - 1].id == i64::MAX {
            None
        } else {
            Some(self.samples[n - 1].id + 1)
        }
    }

    fn push_root(&mut self, id: i64, path: String)
        requires
            old(self).wf(),
            may_follow(root_ids(old(self)@.roots), root_paths(old(self)@.roots), id, path@),
        ensures
            final(self).wf(),
            final(self)@ == (StoreView { roots: old(self)@.roots.push((id, path@)), ..old(self)@ }),
    {
        let ghost v0 = self@;
        proof {
            lemma_append_keeps_rules(root_ids(v0.roots), root_paths(v0.roots), id, path@);
        }
        self.roots.push(AnalysisRoot { id, path });
        assert(self@.roots =~= v0.roots.push((id, path@)));
        assert(root_ids(self@.roots) =~= root_ids(v0.roots).push(id));
        assert(root_paths(self@.roots) =~= root_paths(v0.roots).push(path@));
    }

    fn push_sample(&mut self, id: i64, root_id: i64, path: String, embedding: Embedding)
        requires
            old(self).wf(),
            may_follow(sample_ids(old(self)@.samples), sample_paths(old(self)@.samples), id, path@),
            embedding@.len() == NUM_DIMENSIONS,
        ensures
            final(self).wf(),
            final(self)@ == (StoreView {
                samples: old(self)@.samples.push(
                    SampleRecord { id, root_id, path: path@, embedding: embedding@ },
                ),
                ..old(self)@
            }),
    {
        let ghost v0 = self@;
        let ghost rec = SampleRecord { id, root_id, path: path@, embedding: embedding@ };
        proof {
            lemma_append_keeps_rules(sample_ids(v0.samples), sample_paths(v0.samples), id, path@);
        }
        self.samples.push(Sample { id, root_id, path, embedding });
        assert(self@.samples =~= v0.samples.push(rec));
        assert(sample_ids(self@.samples) =~= sample_ids(v0.samples).push(id));
        assert(sample_paths(self@.samples) =~= sample_paths(v0.samples).push(rec.path));
    }

    /// Registers `analysis_root_dir` and returns its id: the id it already has,
    /// or a newly minted one.
    pub fn initialize(&mut self, analysis_root_dir: &str) -> (r: Result<i64, StoreError>)
        requires
            old(self).wf(),
        ensures
            final(self).wf(),
            (final(self)@, r) == ensure_root_spec(old(self)@, analysis_root_dir@),
    {
        let dir = analysis_root_dir.to_owned();
        match self.find_root(&dir) {
            Some(i) => Ok(self.roots[i].id),
            None => match self.next_root_id() {
                None => Err(StoreError::IdSpaceExhausted),
                Some(id) => {
                    self.push_root(id, dir);
                    Ok(id)
                },
            },
        }
    }

    /// Inserts a sample row and returns its new id; for a path that is
    /// already present, returns the id it has and changes nothing.
    pub fn insert_sample_metadata(
        &mut self,
        file_path: &str,
        analysis_root_dir_id: i64,
        feature_vec: &Embedding,
    ) -> (r: Result<i64, StoreError>)
        requires
            old(self).wf(),
        ensures
            final(self).wf(),
            (final(self)@, r) == insert_spec(
                old(self)@,
                file_path@,
                analysis_root_dir_id,
                feature_vec@,
            ),
    {
        let path = file_path.to_owned();
        match self.find_path(&path) {
            Some(i) => Ok(self.samples[i].id),
            None => match self.next_sample_id() {
                None => Err(StoreError::IdSpaceExhausted),
                Some(id) => {
                    self.push_sample(id, analysis_root_dir_id, path, feature_vec.duplicate());
                    Ok(id)
                },
            },
        }
    }

    /// The files from position `start_offset` on, in id order, at most
    /// `limit` of them (all where `limit` is `None`).
    pub fn list_audio_files(&self, start_offset: u32, limit: Option<u32>) -> (r: Vec<AudioFile>)
        ensures
            audio_views(r@) == list_spec(self@, start_offset, limit),
    {
        let n = self.samples.len();
        let start: usize = if (start_offset as usize) < n {
            start_offset as usize
        } else {
            n
        };
        let end: usize = match limit {
            None => n,
            Some(l) => if (l as usize) < n - start {
                start + l as usize
            } else {
                n
            },
        };
        let mut r: Vec<AudioFile> = Vec::new();
        let mut i: usize = start;
        while i < end
            invariant
                start <= i <= end <= n,
                n == self.samples.len(),
                r@.len() == i - start,
                forall|k: int|
                    0 <= k < r@.len() ==> #[trigger] r@[k]@ == (
                        self@.samples[start + k].id,
                        self@.samples[start + k].path,
                    ),
            decreases end - i,
        {
            r.push(AudioFile { id: self.samples[i].id, path: self.samples[i].path.clone() });
            i = i + 1;
        }
        assert(audio_views(r@) =~= list_spec(self@, start_offset, limit));
        r
    }

    /// Every cached embedding with its path and id, in id order.
    pub fn get_all_features(&self) -> (r: Vec<Feature>)
        ensures
            feature_views(r@) == stored_features(self@),
    {
        let mut r: Vec<Feature> = Vec::new();
        let mut i: usize = 0;
        while i < self.samples.len()
            invariant
                i <= self.samples.len(),
                r@.len() == i,
                forall|k: int| 0 <= k < i ==> #[trigger] r@[k]@ == stored_features(self@)[k],
            decreases self.samples.len() - i,
        {
            let s = &self.samples[i];
            r.push(Feature::new(s.embedding.duplicate(), s.path.clone(), Some(s.id)));
            i = i + 1;
        }
        assert(feature_views(r@) =~= stored_features(self@));
        r
    }

    /// The files with the given ids, in the order of `ids`; ids that the store
    /// does not hold are passed over.
    pub fn get_audio_files_for_ids(&self, ids: &[u32]) -> (r: Vec<AudioFile>)
        requires
            self.wf(),
        ensures
            audio_views(r@) == resolve_spec(self@.samples, ids@),
    {
        let mut r: Vec<AudioFile> = Vec::new();
        let mut i: usize = 0;
        while i < ids.len()
            invariant
                i <= ids.len(),
                self.wf(),
                audio_views(r@) == resolve_spec(self@.samples, ids@.subrange(0, i as int)),
            decreases ids.len() - i,
        {
            let ghost before = r@;
            let found = self.find_id(ids[i] as i64);
            assert(ids@.subrange(0, i + 1).drop_last() =~= ids@.subrange(0, i as int));
            if let Some(k) = found {
                r.push(AudioFile { id: self.samples[k].id, path: self.samples[k].path.clone() });
                assert(audio_views(r@) =~= audio_views(before).push(
                    (self@.samples[k as int].id, self@.samples[k as int].path),
                ));
            } else {
                assert(audio_views(r@) =~= audio_views(before));
            }
            i = i + 1;
        }
        assert(ids@.subrange(0, ids.len() as int) =~= ids@);
        r
    }

    /// Adds a saved analysis root. Fails with `MalformedRow`, changing
    /// nothing, where the id is not above those before it or the path is
    /// already present.
    pub fn restore_root(&mut self, id: i64, path: &str) -> (r: Result<(), StoreError>)
        requires
            old(self).wf(),
        ensures
            final(self).wf(),
            r is Ok <==> may_follow(root_ids(old(self)@.roots), root_paths(old(self)@.roots), id, path@),
            r is Ok ==> final(self)@ == (StoreView { roots: old(self)@.roots.push((id, path@)), ..old(self)@ }),
            r is Err ==> r == Err::<(), StoreError>(StoreError::MalformedRow) && final(self)@ == old(self)@,
    {
        let p = path.to_owned();
        if self.find_root(&p).is_some() {
            return Err(StoreError::MalformedRow);
        }
        let n = self.roots.len();
        if n == 0 && id < 1 || n > 0 && id <= self.roots[n - 1].id {
            return Err(StoreError::MalformedRow);
        }
        self.push_root(id, p);
        Ok(())
    }

    /// Adds a saved sample row whose embedding is encoded in `blob`. Fails
    /// with `MalformedRow`, changing nothing, where the id is not above those
    /// before it, the path is already present, or `blob` does not hold an
    /// embedding. Bytes that `sample_row` wrote always read back.
    pub fn restore_sample(&mut self, id: i64, root_id: i64, path: &str, blob: &Vec<u8>) -> (r: Result<
        (),
        StoreError,
    >)
        requires
            old(self).wf(),
        ensures
            final(self).wf(),
            r is Err ==> r == Err::<(), StoreError>(StoreError::MalformedRow) && final(self)@ == old(self)@,
            !may_follow(sample_ids(old(self)@.samples), sample_paths(old(self)@.samples), id, path@)
                ==> r is Err,
            r is Ok ==> final(self)@ == (StoreView {
                samples: old(self)@.samples.push(
                    SampleRecord {
                        id,
                        root_id,
                        path: path@,
                        embedding: final(self)@.samples.last().embedding,
                    },
                ),
                ..old(self)@
            }) && bincode_u32s(final(self)@.samples.last().embedding).is_prefix_of(blob@),
            forall|w: Seq<u32>|
                #[trigger] bincode_u32s(w) == blob@ && w.len() == NUM_DIMENSIONS && may_follow(
                    sample_ids(old(self)@.samples),
                    sample_paths(old(self)@.samples),
                    id,
                    path@,
                ) ==> r is Ok && final(self)@.samples.last().embedding == w,
    {
        let p = path.to_owned();
        if self.find_path(&p).is_some() {
            return Err(StoreError::MalformedRow);
        }
        let n = self.samples.len();
        if n == 0 && id < 1 || n > 0 && id <= self.samples[n - 1].id {
            return Err(StoreError::MalformedRow);
        }
        match Embedding::from_blob(blob) {
            None => Err(StoreError::MalformedRow),
            Some(e) => {
                self.push_sample(id, root_id, p, e);
                Ok(())
            },
        }
    }

    /// The analysis root at position `i`, for saving.
    pub fn root_row(&self, i: usize) -> (r: (i64, String))
        requires
            i < self@.roots.len(),
        ensures
            (r.0, r.1@) == self@.roots[i as int],
    {
        (self.roots[i].id, self.roots[i].path.clone())
    }

    /// The sample row at position `i`, with its embedding encoded, for
    /// saving.
    pub fn sample_row(&self, i: usize) -> (r: SampleRow)
        requires
            i < self@.samples.len(),
        ensures
            r.id == self@.samples[i as int].id,
            r.root_id == self@.samples[i as int].root_id,
            r.path@ == self@.samples[i as int].path,
            r.blob@ == bincode_u32s(self@.samples[i as int].embedding),
    {
        let s = &self.samples[i];
        SampleRow { id: s.id, root_id: s.root_id, path: s.path.clone(), blob: s.embedding.to_blob() }
    }
}

} // verus!
