//! Content-based similarity search over a corpus of audio files.
//!
//! The library holds the verified core: the embedding type and its storage
//! codec, the metadata store that mints stable ids and caches embeddings, the
//! rules of the feature pipeline, and the glue between the store and the
//! approximate nearest-neighbour index. Decoding, signal processing, the
//! index structure itself and the files on disk are driven by the caller.
use vstd::prelude::*;

pub mod embedding;
pub mod feature;
pub mod feature_extractor;
pub mod file_utils;
pub mod metadata_db;
pub mod vector_db;

use crate::embedding::NUM_DIMENSIONS;
use crate::feature::{feature_views, Feature, FeatureView};
use crate::feature_extractor::{is_cached, lemma_cached_files_are_skipped, uncached};
use crate::metadata_db::{
    audio_views, ensure_root_spec, insert_spec, lemma_insert_keeps_rows, lemma_insert_keeps_wf,
    lemma_inserted_path_is_present, list_spec, resolve_spec, sample_paths, store_wf, stored_features,
    AudioFile, MetadataDatabase, StoreError, StoreView,
};
use crate::vector_db::{
    answer_view, entries_spec, entry_views, has_index_key, index_entries, ranked_neighbours, ranked_spec,
    IndexEntry, IndexError,
};

verus! {

/// Inserting the features one after another under analysis root `root_id`:
/// the store after them, and the ids they got, or the first error.
pub open spec fn insert_all(v: StoreView, root_id: i64, fs: Seq<FeatureView>) -> (
    StoreView,
    Result<Seq<i64>, StoreError>,
)
    decreases fs.len(),
{
    if fs.len() == 0 {
        (v, Ok(Seq::empty()))
    } else {
        let (v0, r0) = insert_all(v, root_id, fs.drop_last());
        match r0 {
            Err(e) => (v0, Err(e)),
            Ok(ids) => {
                let (v1, r1) = insert_spec(v0, fs.last().source_file, root_id, fs.last().embedding);
                match r1 {
                    Err(e) => (v1, Err(e)),
                    Ok(id) => (v1, Ok(ids.push(id))),
                }
            },
        }
    }
}

/// Once an insertion fails, the rest are not made.
proof fn lemma_insert_all_stops(v: StoreView, root_id: i64, fs: Seq<FeatureView>, i: int)
    requires
        0 <= i <= fs.len(),
        insert_all(v, root_id, fs.take(i)).1 is Err,
    ensures
        insert_all(v, root_id, fs) == insert_all(v, root_id, fs.take(i)),
    decreases fs.len() - i,
{
    if i < fs.len() {
        assert(fs.take(i + 1).drop_last() =~= fs.take(i));
        lemma_insert_all_stops(v, root_id, fs, i + 1);
    } else {
        assert(fs.take(i) =~= fs);
    }
}

/// A run of insertions keeps the store's rules and every row that was there,
/// and when it succeeds every inserted path is present.
proof fn lemma_insert_all_facts(v: StoreView, root_id: i64, fs: Seq<FeatureView>)
    requires
        store_wf(v),
        forall|i: int| 0 <= i < fs.len() ==> (#[trigger] fs[i]).embedding.len() == NUM_DIMENSIONS,
    ensures
        ({
            let (v2, r) = insert_all(v, root_id, fs);
            &&& store_wf(v2)
            &&& v2.samples.len() >= v.samples.len()
            &&& v2.samples.subrange(0, v.samples.len() as int) == v.samples
            &&& r is Ok ==> forall|i: int|
                0 <= i < fs.len() ==> sample_paths(v2.samples).contains(#[trigger] fs[i].source_file)
        }),
    decreases fs.len(),
{
    if fs.len() > 0 {
        let front = fs.drop_last();
        assert forall|i: int| 0 <= i < front.len() implies (#[trigger] front[i]).embedding.len()
            == NUM_DIMENSIONS by {
            assert(front[i] == fs[i]);
        }
        lemma_insert_all_facts(v, root_id, front);
        let (v0, r0) = insert_all(v, root_id, front);
        if r0 is Ok {
            let last = fs.last();
            assert(last == fs[fs.len() - 1]);
            lemma_insert_keeps_wf(v0, last.source_file, root_id, last.embedding);
            lemma_insert_keeps_rows(v0, last.source_file, root_id, last.embedding);
            lemma_inserted_path_is_present(v0, last.source_file, root_id, last.embedding);
            let (v1, r1) = insert_spec(v0, last.source_file, root_id, last.embedding);
            assert(v1.samples.subrange(0, v.samples.len() as int) =~= v0.samples.subrange(
                0,
                v.samples.len() as int,
            ));
            if r1 is Ok {
                assert forall|i: int| 0 <= i < fs.len() implies sample_paths(v1.samples).contains(
                    #[trigger] fs[i].source_file,
                ) by {
                    if i < fs.len() - 1 {
                        assert(front[i] == fs[i]);
                        assert(sample_paths(v0.samples).contains(front[i].source_file));
                        let j = choose|j: int|
                            0 <= j < sample_paths(v0.samples).len() && sample_paths(v0.samples)[j]
                                == front[i].source_file;
                        assert(v1.samples[j] == v0.samples[j]);
                        assert(sample_paths(v1.samples)[j] == fs[i].source_file);
                    } else {
                        let j = choose|j: int|
                            0 <= j < v1.samples.len() && v1.samples[j].path == last.source_file;
                        assert(sample_paths(v1.samples)[j] == fs[i].source_file);
                    }
                }
            }
        }
    }
}

/// Analysing a directory a second time computes nothing for the files the
/// first run stored, and the rebuilt index keeps every id: after the first
/// run's insertions succeed, every candidate that was already stored or was
/// inserted by that run is cached, and every earlier row is still there.
pub proof fn lemma_reanalysis_extracts_nothing(
    v: StoreView,
    root_id: i64,
    fs: Seq<FeatureView>,
    files: Seq<Seq<char>>,
)
    requires
        store_wf(v),
        forall|i: int| 0 <= i < fs.len() ==> (#[trigger] fs[i]).embedding.len() == NUM_DIMENSIONS,
        insert_all(v, root_id, fs).1 is Ok,
        forall|k: int|
            0 <= k < files.len() ==> sample_paths(v.samples).contains(#[trigger] files[k]) || exists|i: int|
                0 <= i < fs.len() && fs[i].source_file == files[k],
    ensures
        ({
            let v2 = insert_all(v, root_id, fs).0;
            &&& uncached(files, stored_features(v2)).len() == 0
            &&& v2.samples.subrange(0, v.samples.len() as int) == v.samples
        }),
{
    lemma_insert_all_facts(v, root_id, fs);
    let v2 = insert_all(v, root_id, fs).0;
    let cached = stored_features(v2);
    assert forall|k: int| 0 <= k < files.len() implies is_cached(cached, #[trigger] files[k]) by {
        let p = files[k];
        if !sample_paths(v.samples).contains(p) {
            let i = choose|i: int| 0 <= i < fs.len() && fs[i].source_file == p;
            assert(sample_paths(v2.samples).contains(fs[i].source_file));
        } else {
            let j = choose|j: int| 0 <= j < sample_paths(v.samples).len() && sample_paths(v.samples)[j] == p;
            assert(v2.samples.subrange(0, v.samples.len() as int)[j] == v.samples[j]);
            assert(sample_paths(v2.samples)[j] == p);
        }
        let j = choose|j: int| 0 <= j < sample_paths(v2.samples).len() && sample_paths(v2.samples)[j] == p;
        assert(cached[j].source_file == p);
    }
    lemma_cached_files_are_skipped(files, cached);
}

/// Registers `asset_dir` as an analysis root and inserts every feature under
/// it, in order; returns the features tagged with the ids the store gave
/// their files. Paths already present keep their ids and cached embeddings.
pub fn record_features(db: &mut MetadataDatabase, asset_dir: &str, features: &Vec<Feature>) -> (r: Result<
    Vec<Feature>,
    StoreError,
>)
    requires
        old(db).wf(),
    ensures
        final(db).wf(),
        ({
            let (v1, rr) = ensure_root_spec(old(db)@, asset_dir@);
            match rr {
                Err(e) => r == Err::<Vec<Feature>, StoreError>(e) && final(db)@ == v1,
                Ok(root) => {
                    let (v2, ri) = insert_all(v1, root, feature_views(features@));
                    &&& final(db)@ == v2
                    &&& match ri {
                        Err(e) => r == Err::<Vec<Feature>, StoreError>(e),
                        Ok(ids) => r matches Ok(out) && out@.len() == features@.len() && forall|i: int|
                            0 <= i < out@.len() ==> #[trigger] out@[i]@ == (FeatureView {
                                id: Some(ids[i]),
                                ..features@[i]@
                            }),
                    }
                },
            }
        }),
{
    let root = match db.initialize(asset_dir) {
        Err(e) => return Err(e),
        Ok(root) => root,
    };
    let ghost v1 = db@;
    let ghost views = feature_views(features@);
    let ghost mut ids: Seq<i64> = Seq::empty();
    let mut out: Vec<Feature> = Vec::new();
    let mut i: usize = 0;
    while i < features.len()
        invariant
            i <= features.len(),
            db.wf(),
            views == feature_views(features@),
            ensure_root_spec(old(db)@, asset_dir@) == (v1, Ok::<i64, StoreError>(root)),
            insert_all(v1, root, views.take(i as int)) == (db@, Ok::<Seq<i64>, StoreError>(ids)),
            out@.len() == i,
            ids.len() == i,
            forall|k: int| 0 <= k < i ==> #[trigger] out@[k]@ == (FeatureView { id: Some(ids[k]), ..views[k] }),
        decreases features.len() - i,
    {
        let f = &features[i];
        assert(views.take(i + 1).drop_last() =~= views.take(i as int));
        assert(views.take(i + 1).last() == views[i as int]);
        let ghost before = db@;
        match db.insert_sample_metadata(f.source_file(), root, f.feature_vector()) {
            Err(e) => {
                proof {
                    assert(insert_spec(before, views[i as int].source_file, root, views[i as int].embedding)
                        == (db@, Err::<i64, StoreError>(e)));
                    assert(insert_all(v1, root, views.take(i + 1)) == (db@, Err::<Seq<i64>, StoreError>(e)));
                    lemma_insert_all_stops(v1, root, views, i + 1);
                    assert(insert_all(v1, root, views) == (db@, Err::<Seq<i64>, StoreError>(e)));
                    assert(ensure_root_spec(old(db)@, asset_dir@) == (v1, Ok::<i64, StoreError>(root)));
                }
                return Err(e);
            },
            Ok(id) => {
                let mut g = f.duplicate();
                g.set_id(id);
                out.push(g);
                proof {
                    ids = ids.push(id);
                }
            },
        }
        i = i + 1;
    }
    assert(views.take(features.len() as int) =~= views);
    Ok(out)
}

/// The entries an index is rebuilt from: every row of the store, cached or
/// new, keyed by its stable id.
pub fn store_index_entries(db: &MetadataDatabase) -> (r: Result<Vec<IndexEntry>, IndexError>)
    ensures
        r is Ok <==> forall|i: int|
            0 <= i < db@.samples.len() ==> #[trigger] has_index_key(stored_features(db@)[i]),
        r matches Ok(es) ==> entry_views(es@) == entries_spec(stored_features(db@)),
        r is Err ==> r == Err::<Vec<IndexEntry>, IndexError>(IndexError::InvalidKey),
{
    let fs = db.get_all_features();
    let r = index_entries(&fs);
    assert(feature_views(fs@) == stored_features(db@));
    assert(fs@.len() == feature_views(fs@).len());
    assert((forall|i: int| 0 <= i < fs@.len() ==> #[trigger] has_index_key(feature_views(fs@)[i])) <==> (
    forall|i: int| 0 <= i < db@.samples.len() ==> #[trigger] has_index_key(stored_features(db@)[i])));
    r
}

/// The files most similar to a queried one, nearest first, given the
/// index's answer for it (`None` where the queried id is not in the index):
/// at most `num_results` of them, each once, in the index's rank order.
pub fn find_similar(db: &MetadataDatabase, index_answer: Option<Vec<u32>>, num_results: usize) -> (r:
    Result<Vec<AudioFile>, IndexError>)
    requires
        db.wf(),
    ensures
        r matches Err(e) ==> ranked_spec(answer_view(index_answer), num_results as nat) == Err::<
            Seq<u32>,
            IndexError,
        >(e),
        r matches Ok(files) ==> (ranked_spec(answer_view(index_answer), num_results as nat) matches Ok(
            ids,
        ) && audio_views(files@) == resolve_spec(db@.samples, ids)),
{
    let ids = ranked_neighbours(index_answer, num_results)?;
    Ok(db.get_audio_files_for_ids(ids.as_slice()))
}

/// One page of the stored files, in id order: at most `num_results` of
/// them, from position `start_offset` on.
pub fn list_audio_files(db: &MetadataDatabase, start_offset: u32, num_results: u32) -> (r: Vec<
    AudioFile,
>)
    ensures
        audio_views(r@) == list_spec(db@, start_offset, Some(num_results)),
{
    db.list_audio_files(start_offset, Some(num_results))
}

} // verus!
