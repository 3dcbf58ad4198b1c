use audio_similarity_search::embedding::{Embedding, NUM_DIMENSIONS};
use audio_similarity_search::feature::Feature;
use audio_similarity_search::metadata_db::MetadataDatabase;
use audio_similarity_search::store_index_entries;
use audio_similarity_search::vector_db::{
    index_entries, ranked_neighbours, search_breadth, IndexError,
};

fn embedding(first: f32) -> Embedding {
    let mut values = vec![0.0f32; NUM_DIMENSIONS];
    values[0] = first;
    Embedding::from_bits(values.iter().map(|v| v.to_bits()).collect()).unwrap()
}

#[test]
fn breadth_is_results_times_trees_times_fifteen() {
    assert_eq!(search_breadth(2, 3), Some(90));
    assert_eq!(search_breadth(1, 1), Some(15));
    assert_eq!(search_breadth(0, 3), None);
    assert_eq!(search_breadth(usize::MAX, 2), None);
}

#[test]
fn ranking_truncates_to_k() {
    assert_eq!(ranked_neighbours(Some(vec![7, 3, 9, 1]), 2), Ok(vec![7, 3]));
}

#[test]
fn ranking_returns_all_when_fewer_than_k() {
    assert_eq!(ranked_neighbours(Some(vec![7, 3]), 5), Ok(vec![7, 3]));
    assert_eq!(ranked_neighbours(Some(vec![]), 5), Ok(vec![]));
}

#[test]
fn ranking_keeps_query_first_and_dedups() {
    assert_eq!(ranked_neighbours(Some(vec![4, 4, 2, 4, 8]), 3), Ok(vec![4, 2, 8]));
}

#[test]
fn unknown_key_is_reported() {
    assert_eq!(ranked_neighbours(None, 3), Err(IndexError::UnknownIndexKey));
}

#[test]
fn entries_need_ids_that_fit_a_key() {
    let no_id = vec![Feature::new(embedding(1.0), "/a.wav".to_string(), None)];
    assert_eq!(index_entries(&no_id).err(), Some(IndexError::InvalidKey));
    let too_big = vec![Feature::new(embedding(1.0), "/a.wav".to_string(), Some(1i64 << 32))];
    assert_eq!(index_entries(&too_big).err(), Some(IndexError::InvalidKey));
    let ok = vec![Feature::new(embedding(1.0), "/a.wav".to_string(), Some(4))];
    let es = index_entries(&ok).unwrap();
    assert_eq!(es[0].id, 4);
    assert_eq!(f32::from_bits(es[0].embedding.bits()[0]), 1.0);
}

#[test]
fn index_is_built_from_every_stored_row() {
    let mut db = MetadataDatabase::new();
    let root = db.initialize("/s").unwrap();
    for (i, p) in ["/s/a.wav", "/s/b.wav", "/s/c.wav"].iter().enumerate() {
        db.insert_sample_metadata(p, root, &embedding(i as f32)).unwrap();
    }
    let es = store_index_entries(&db).unwrap();
    let ids: Vec<u32> = es.iter().map(|e| e.id).collect();
    assert_eq!(ids, vec![1, 2, 3]);
}
