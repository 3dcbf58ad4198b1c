use audio_similarity_search::embedding::{Embedding, NUM_DIMENSIONS};
use audio_similarity_search::feature::Feature;
use audio_similarity_search::feature_extractor::{
    block_count, channel_layout, files_to_analyze, is_supported_extension, padded_len,
    resample_plan, ChannelLayout, ExtractError, ResamplePlan, BLOCK_SIZE,
};
use audio_similarity_search::file_utils::metadata_db_path;
use audio_similarity_search::metadata_db::MetadataDatabase;
use audio_similarity_search::record_features;

fn embedding(first: f32) -> Embedding {
    let mut values = vec![0.0f32; NUM_DIMENSIONS];
    values[0] = first;
    Embedding::from_bits(values.iter().map(|v| v.to_bits()).collect()).unwrap()
}

#[test]
fn embedding_has_fixed_dimension() {
    assert_eq!(NUM_DIMENSIONS, 13);
    assert!(Embedding::from_bits(vec![0; 13]).is_some());
    assert!(Embedding::from_bits(vec![0; 12]).is_none());
    assert!(Embedding::from_bits(vec![0; 14]).is_none());
    assert_eq!(embedding(1.5).bits().len(), 13);
}

#[test]
fn blob_is_bincode_layout() {
    let e = Embedding::from_bits((1..=13u32).collect()).unwrap();
    let blob = e.to_blob();
    assert_eq!(blob.len(), 8 + 4 * 13);
    assert_eq!(&blob[0..8], &[13, 0, 0, 0, 0, 0, 0, 0]);
    assert_eq!(&blob[8..12], &[1, 0, 0, 0]);
    assert_eq!(&blob[56..60], &[13, 0, 0, 0]);
}

#[test]
fn blob_reads_back() {
    let e = embedding(-0.25);
    let blob = e.to_blob();
    let back = Embedding::from_blob(&blob).unwrap();
    assert_eq!(back.bits(), e.bits());
    assert_eq!(f32::from_bits(back.bits()[0]), -0.25);
}

#[test]
fn blob_of_wrong_length_is_refused() {
    assert!(Embedding::from_blob(&vec![]).is_none());
    let mut short = vec![12u8, 0, 0, 0, 0, 0, 0, 0];
    short.extend(std::iter::repeat(0u8).take(48));
    assert!(Embedding::from_blob(&short).is_none());
    let mut truncated = vec![13u8, 0, 0, 0, 0, 0, 0, 0];
    truncated.extend(std::iter::repeat(0u8).take(40));
    assert!(Embedding::from_blob(&truncated).is_none());
}

#[test]
fn mono_and_stereo_are_accepted() {
    assert_eq!(channel_layout(1), Ok(ChannelLayout::Mono));
    assert_eq!(channel_layout(2), Ok(ChannelLayout::Stereo));
}

#[test]
fn other_channel_counts_are_refused() {
    for n in [0u16, 3, 6, 8] {
        assert_eq!(channel_layout(n), Err(ExtractError::UnsupportedChannelLayout));
    }
}

#[test]
fn resample_ratio_bounds() {
    assert_eq!(resample_plan(22050, 22050), Ok(ResamplePlan::Unchanged));
    assert_eq!(resample_plan(44100, 22050), Ok(ResamplePlan::Resample));
    assert_eq!(resample_plan(220500, 22050), Ok(ResamplePlan::Resample));
    assert_eq!(resample_plan(220501, 22050), Err(ExtractError::ResampleRatioUnsupported));
    assert_eq!(resample_plan(2205, 22050), Ok(ResamplePlan::Resample));
    assert_eq!(resample_plan(2204, 22050), Err(ExtractError::ResampleRatioUnsupported));
    assert_eq!(resample_plan(0, 22050), Err(ExtractError::ResampleRatioUnsupported));
}

#[test]
fn short_buffer_gets_one_padded_block() {
    assert_eq!(block_count(1), 1);
    assert_eq!(padded_len(1), BLOCK_SIZE);
    assert_eq!(block_count(0), 1);
    assert_eq!(block_count(2047), 1);
    assert_eq!(padded_len(2047), 2048);
}

#[test]
fn long_buffer_uses_whole_blocks() {
    assert_eq!(block_count(2048), 1);
    assert_eq!(block_count(4095), 1);
    assert_eq!(block_count(4096), 2);
    assert_eq!(block_count(10000), 4);
    assert_eq!(padded_len(10000), 10000);
}

#[test]
fn supported_extensions() {
    assert!(is_supported_extension("wav"));
    assert!(is_supported_extension("mp3"));
    assert!(!is_supported_extension("WAV"));
    assert!(!is_supported_extension("flac"));
    assert!(!is_supported_extension(""));
}

#[test]
fn no_candidate_files_is_an_error() {
    assert_eq!(files_to_analyze(&vec![], &vec![]).err(), Some(ExtractError::NoFilesFound));
}

#[test]
fn cached_files_are_not_analysed() {
    let files = vec!["/s/a.wav".to_string(), "/s/b.wav".to_string(), "/s/c.wav".to_string()];
    let cached = vec![Feature::new(embedding(1.0), "/s/b.wav".to_string(), Some(1))];
    let pending = files_to_analyze(&files, &cached).unwrap();
    assert_eq!(pending, vec!["/s/a.wav".to_string(), "/s/c.wav".to_string()]);
}

#[test]
fn second_analysis_computes_nothing() {
    let files = vec!["/s/a.wav".to_string(), "/s/b.wav".to_string(), "/s/c.wav".to_string()];
    let mut db = MetadataDatabase::new();
    let first = files_to_analyze(&files, &db.get_all_features()).unwrap();
    assert_eq!(first.len(), 3);
    let computed: Vec<Feature> = first
        .iter()
        .enumerate()
        .map(|(i, f)| Feature::new(embedding(i as f32), f.clone(), None))
        .collect();
    record_features(&mut db, "/s", &computed).unwrap();
    let ids_before: Vec<i64> = db.list_audio_files(0, None).iter().map(|f| f.id()).collect();
    let second = files_to_analyze(&files, &db.get_all_features()).unwrap();
    assert!(second.is_empty());
    record_features(&mut db, "/s", &Vec::new()).unwrap();
    let ids_after: Vec<i64> = db.list_audio_files(0, None).iter().map(|f| f.id()).collect();
    assert_eq!(ids_before, ids_after);
}

#[test]
fn metadata_db_path_joins() {
    assert_eq!(metadata_db_path("/home/u/.local/share/app"), "/home/u/.local/share/app/md.db");
    assert_eq!(metadata_db_path("/data/"), "/data/md.db");
    assert_eq!(metadata_db_path(""), "md.db");
}
