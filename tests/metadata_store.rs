use audio_similarity_search::embedding::{Embedding, NUM_DIMENSIONS};
use audio_similarity_search::metadata_db::{MetadataDatabase, StoreError};
use audio_similarity_search::{find_similar, list_audio_files, record_features};
use audio_similarity_search::feature::Feature;

fn embedding(first: f32) -> Embedding {
    let mut values = vec![0.0f32; NUM_DIMENSIONS];
    values[0] = first;
    Embedding::from_bits(values.iter().map(|v| v.to_bits()).collect()).unwrap()
}

fn store_with(paths: &[&str]) -> (MetadataDatabase, Vec<i64>) {
    let mut db = MetadataDatabase::new();
    let root = db.initialize("/samples").unwrap();
    let mut ids = Vec::new();
    for (i, p) in paths.iter().enumerate() {
        ids.push(db.insert_sample_metadata(p, root, &embedding(i as f32)).unwrap());
    }
    (db, ids)
}

#[test]
fn ids_are_minted_from_one_upward() {
    let (_, ids) = store_with(&["/samples/a.wav", "/samples/b.wav", "/samples/c.wav"]);
    assert_eq!(ids, vec![1, 2, 3]);
}

#[test]
fn insert_twice_returns_same_id_and_keeps_embedding() {
    let mut db = MetadataDatabase::new();
    let root = db.initialize("/samples").unwrap();
    let first = db.insert_sample_metadata("/samples/kick.wav", root, &embedding(1.0)).unwrap();
    let second = db.insert_sample_metadata("/samples/kick.wav", root, &embedding(-5.0)).unwrap();
    assert_eq!(first, second);
    assert_eq!(db.sample_count(), 1);
    let features = db.get_all_features();
    assert_eq!(features.len(), 1);
    assert_eq!(f32::from_bits(features[0].feature_vector().bits()[0]), 1.0);
    assert_eq!(*features[0].id(), Some(first));
}

#[test]
fn initialize_is_idempotent() {
    let mut db = MetadataDatabase::new();
    let a = db.initialize("/samples").unwrap();
    let b = db.initialize("/other").unwrap();
    let c = db.initialize("/samples").unwrap();
    assert_eq!(a, 1);
    assert_eq!(b, 2);
    assert_eq!(c, a);
    assert_eq!(db.root_count(), 2);
}

#[test]
fn resolve_ids_keeps_caller_order() {
    let (db, ids) = store_with(&["/s/a.wav", "/s/b.wav", "/s/c.wav"]);
    let query = [ids[2] as u32, ids[0] as u32, ids[1] as u32];
    let files = db.get_audio_files_for_ids(&query);
    let got: Vec<(i64, &str)> = files.iter().map(|f| (f.id(), f.path())).collect();
    assert_eq!(got, vec![(3, "/s/c.wav"), (1, "/s/a.wav"), (2, "/s/b.wav")]);
}

#[test]
fn resolve_ids_skips_unknown_ids() {
    let (db, _) = store_with(&["/s/a.wav", "/s/b.wav"]);
    let files = db.get_audio_files_for_ids(&[9, 2, 0]);
    let got: Vec<i64> = files.iter().map(|f| f.id()).collect();
    assert_eq!(got, vec![2]);
}

#[test]
fn two_pages_cover_four_rows_without_overlap() {
    let (db, _) = store_with(&["/s/a.wav", "/s/b.wav", "/s/c.wav", "/s/d.wav"]);
    let first = db.list_audio_files(0, Some(2));
    let second = db.list_audio_files(2, Some(2));
    let mut ids: Vec<i64> = first.iter().chain(second.iter()).map(|f| f.id()).collect();
    assert_eq!(ids, vec![1, 2, 3, 4]);
    ids.dedup();
    assert_eq!(ids.len(), 4);
    let all: Vec<i64> = db.list_audio_files(0, None).iter().map(|f| f.id()).collect();
    assert_eq!(all, vec![1, 2, 3, 4]);
}

#[test]
fn list_past_the_end_is_empty() {
    let (db, _) = store_with(&["/s/a.wav", "/s/b.wav"]);
    assert!(db.list_audio_files(5, Some(3)).is_empty());
    assert!(db.list_audio_files(2, None).is_empty());
    let last = db.list_audio_files(1, Some(10));
    assert_eq!(last.len(), 1);
    assert_eq!(last[0].path(), "/s/b.wav");
}

#[test]
fn list_audio_files_of_library_pages() {
    let (db, _) = store_with(&["/s/a.wav", "/s/b.wav", "/s/c.wav"]);
    let page: Vec<i64> = list_audio_files(&db, 1, 1).iter().map(|f| f.id()).collect();
    assert_eq!(page, vec![2]);
}

#[test]
fn cached_embeddings_of_empty_store() {
    let db = MetadataDatabase::new();
    assert!(db.get_all_features().is_empty());
}

#[test]
fn saved_rows_restore_the_same_store() {
    let (db, _) = store_with(&["/s/a.wav", "/s/b.wav"]);
    let mut copy = MetadataDatabase::new();
    for i in 0..db.root_count() {
        let (id, path) = db.root_row(i);
        copy.restore_root(id, &path).unwrap();
    }
    for i in 0..db.sample_count() {
        let row = db.sample_row(i);
        copy.restore_sample(row.id, row.root_id, &row.path, &row.blob).unwrap();
    }
    let a: Vec<(i64, String)> =
        db.list_audio_files(0, None).iter().map(|f| (f.id(), f.path().to_string())).collect();
    let b: Vec<(i64, String)> =
        copy.list_audio_files(0, None).iter().map(|f| (f.id(), f.path().to_string())).collect();
    assert_eq!(a, b);
    let fa = db.get_all_features();
    let fb = copy.get_all_features();
    assert_eq!(fa[1].feature_vector().bits(), fb[1].feature_vector().bits());
}

#[test]
fn restore_rejects_malformed_rows() {
    let (db, _) = store_with(&["/s/a.wav"]);
    let row = db.sample_row(0);
    let mut copy = MetadataDatabase::new();
    assert_eq!(copy.restore_root(0, "/s"), Err(StoreError::MalformedRow));
    copy.restore_root(3, "/s").unwrap();
    assert_eq!(copy.restore_root(3, "/t"), Err(StoreError::MalformedRow));
    assert_eq!(copy.restore_root(4, "/s"), Err(StoreError::MalformedRow));
    copy.restore_sample(5, 3, "/s/a.wav", &row.blob).unwrap();
    assert_eq!(copy.restore_sample(4, 3, "/s/b.wav", &row.blob), Err(StoreError::MalformedRow));
    assert_eq!(copy.restore_sample(6, 3, "/s/a.wav", &row.blob), Err(StoreError::MalformedRow));
    assert_eq!(copy.restore_sample(6, 3, "/s/b.wav", &vec![1, 2, 3]), Err(StoreError::MalformedRow));
    assert_eq!(copy.sample_count(), 1);
    let next = copy.insert_sample_metadata("/s/c.wav", 3, &embedding(2.0)).unwrap();
    assert_eq!(next, 6);
}

#[test]
fn record_features_tags_ids_and_keeps_known_paths() {
    let mut db = MetadataDatabase::new();
    let features = vec![
        Feature::new(embedding(1.0), "/s/a.wav".to_string(), None),
        Feature::new(embedding(2.0), "/s/b.wav".to_string(), None),
    ];
    let tagged = record_features(&mut db, "/s", &features).unwrap();
    assert_eq!(*tagged[0].id(), Some(1));
    assert_eq!(*tagged[1].id(), Some(2));
    assert_eq!(tagged[1].source_file(), "/s/b.wav");
    let again = vec![
        Feature::new(embedding(9.0), "/s/b.wav".to_string(), None),
        Feature::new(embedding(3.0), "/s/c.wav".to_string(), None),
    ];
    let tagged = record_features(&mut db, "/s", &again).unwrap();
    assert_eq!(*tagged[0].id(), Some(2));
    assert_eq!(*tagged[1].id(), Some(3));
    assert_eq!(db.root_count(), 1);
    let cached = db.get_all_features();
    assert_eq!(f32::from_bits(cached[1].feature_vector().bits()[0]), 2.0);
}

#[test]
fn nearest_two_of_three_files() {
    // a = [1, 0, 0], b = [0.99, 0.1, 0], c = [-1, 0, 0]: the index ranks a, b, c.
    let (db, ids) = store_with(&["/s/a.wav", "/s/b.wav", "/s/c.wav"]);
    let answer = vec![ids[0] as u32, ids[1] as u32, ids[2] as u32];
    let files = find_similar(&db, Some(answer), 2).unwrap();
    let got: Vec<&str> = files.iter().map(|f| f.path()).collect();
    assert_eq!(got, vec!["/s/a.wav", "/s/b.wav"]);
}

#[test]
fn find_similar_of_unknown_id_fails() {
    let (db, _) = store_with(&["/s/a.wav"]);
    assert!(find_similar(&db, None, 3).is_err());
}
