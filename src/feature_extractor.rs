//! The decisions of the feature pipeline: which files need analysis, which
//! channel layouts and sample rates are accepted, and how a buffer is cut
//! into analysis blocks. The signal processing itself runs on floating-point
//! samples outside this crate, by these rules.
use vstd::prelude::*;

use crate::feature::{feature_views, string_views, Feature, FeatureView};

pub use crate::embedding::NUM_DIMENSIONS;

verus! {

/// Whether the features are computed one file after another or on a pool of
/// worker threads.
#[derive(Debug, Clone, Copy, PartialEq, Eq, Structural)]
pub enum RunMode {
    SingleThreaded,
    Parallel,
}

#[derive(Debug, Clone, Copy, PartialEq, Eq, Structural)]
pub enum ExtractError {
    /// The directory holds no candidate audio file.
    NoFilesFound,
    /// A file could not be read or decoded.
    DecodeFailed,
    /// A file has neither one nor two channels.
    UnsupportedChannelLayout,
    /// Source and target rates differ by more than `MAX_RESAMPLE_RATIO`.
    ResampleRatioUnsupported,
}

/// The rate at which every buffer is analysed, in Hz.
pub const ANALYSIS_SAMPLE_RATE: u32 = 22050;

/// Samples per analysis block (and per FFT).
pub const BLOCK_SIZE: usize = 2048;

/// Filters in the mel filter bank.
pub const NUM_MEL_FILTERS: usize = 40;

/// The largest factor by which source and target rates may differ.
pub const MAX_RESAMPLE_RATIO: u32 = 10;

/// Frames the resampler takes in per call.
pub const RESAMPLE_CHUNK_SIZE: usize = 2048;

#[derive(Debug, Clone, Copy, PartialEq, Eq, Structural)]
pub enum ChannelLayout {
    /// Used as it is.
    Mono,
    /// Mixed down to mono by averaging the two samples of each frame.
    Stereo,
}

/// The layout of a decoded file with `num_channels` channels.
pub fn channel_layout(num_channels: u16) -> (r: Result<ChannelLayout, ExtractError>)
    ensures
        num_channels == 1 ==> r == Ok::<ChannelLayout, ExtractError>(ChannelLayout::Mono),
        num_channels == 2 ==> r == Ok::<ChannelLayout, ExtractError>(ChannelLayout::Stereo),
        num_channels != 1 && num_channels != 2 ==> r == Err::<ChannelLayout, ExtractError>(
            ExtractError::UnsupportedChannelLayout,
        ),
{
    if num_channels == 1 {
        Ok(ChannelLayout::Mono)
    } else if num_channels == 2 {
        Ok(ChannelLayout::Stereo)
    } else {
        Err(ExtractError::UnsupportedChannelLayout)
    }
}

#[derive(Debug, Clone, Copy, PartialEq, Eq, Structural)]
pub enum ResamplePlan {
    /// The rates match: the buffer is used as it is.
    Unchanged,
    /// The buffer goes through the band-limited resampler.
    Resample,
}

pub open spec fn resample_plan_spec(source_rate: u32, target_rate: u32) -> Result<ResamplePlan, ExtractError> {
    if source_rate == target_rate {
        Ok(ResamplePlan::Unchanged)
    } else if source_rate > 0 && target_rate > 0 && source_rate * MAX_RESAMPLE_RATIO >= target_rate
        && target_rate * MAX_RESAMPLE_RATIO >= source_rate {
        Ok(ResamplePlan::Resample)
    } else {
        Err(ExtractError::ResampleRatioUnsupported)
    }
}

/// What to do to bring a buffer from `source_rate` to `target_rate`.
pub fn resample_plan(source_rate: u32, target_rate: u32) -> (r: Result<ResamplePlan, ExtractError>)
    ensures
        r == resample_plan_spec(source_rate, target_rate),
{
    if source_rate == target_rate {
        return Ok(ResamplePlan::Unchanged);
    }
    let s = source_rate as u64;
    let t = target_rate as u64;
    let m = MAX_RESAMPLE_RATIO as u64;
    if s > 0 && t > 0 && s * m >= t && t * m >= s {
        Ok(ResamplePlan::Resample)
    } else {
        Err(ExtractError::ResampleRatioUnsupported)
    }
}

/// The number of blocks that a buffer of `num_samples` samples is cut into:
/// its whole blocks, or one zero-padded block where it is shorter than a block.
pub open spec fn block_count_spec(num_samples: nat) -> nat {
    if num_samples < BLOCK_SIZE {
        1
    } else {
        num_samples / (BLOCK_SIZE as nat)
    }
}

pub fn block_count(num_samples: usize) -> (r: usize)
    ensures
        r == block_count_spec(num_samples as nat),
        r >= 1,
        r * BLOCK_SIZE <= padded_len_spec(num_samples as nat),
{
    if num_samples < BLOCK_SIZE {
        1
    } else {
        assert((num_samples / BLOCK_SIZE) * BLOCK_SIZE <= num_samples) by (nonlinear_arith);
        num_samples / BLOCK_SIZE
    }
}

/// A buffer shorter than one block is zero-padded to exactly one block.
pub open spec fn padded_len_spec(num_samples: nat) -> nat {
    if num_samples < BLOCK_SIZE {
        BLOCK_SIZE as nat
    } else {
        num_samples
    }
}

pub fn padded_len(num_samples: usize) -> (r: usize)
    ensures
        r == padded_len_spec(num_samples as nat),
{
    if num_samples < BLOCK_SIZE {
        BLOCK_SIZE
    } else {
        num_samples
    }
}

/// Every buffer, however short, is analysed in at least one block, and the
/// blocks lie inside the padded buffer.
pub proof fn lemma_every_buffer_has_a_block(num_samples: nat)
    ensures
        block_count_spec(num_samples) >= 1,
        block_count_spec(num_samples) * BLOCK_SIZE <= padded_len_spec(num_samples),
        num_samples < BLOCK_SIZE ==> block_count_spec(num_samples) == 1 && padded_len_spec(num_samples)
            == BLOCK_SIZE,
{
    if num_samples >= BLOCK_SIZE {
        assert((num_samples / 2048) * 2048 <= num_samples) by (nonlinear_arith);
        assert(num_samples / 2048 >= 1) by (nonlinear_arith)
            requires
                num_samples >= 2048,
        ;
    }
}

/// Whether a file extension marks a supported audio file.
pub fn is_supported_extension(ext: &str) -> (r: bool)
    ensures
        r == (ext@ == "wav"@ || ext@ == "mp3"@),
{
    let e = ext.to_owned();
    let wav = "wav".to_owned();
    let mp3 = "mp3".to_owned();
    e == wav || e == mp3
}

/// Whether `cached` holds a feature computed from `path`.
pub open spec fn is_cached(cached: Seq<FeatureView>, path: Seq<char>) -> bool {
    exists|i: int| 0 <= i < cached.len() && cached[i].source_file == path
}

/// The files of `files` that have no cached feature, in their order.
pub open spec fn uncached(files: Seq<Seq<char>>, cached: Seq<FeatureView>) -> Seq<Seq<char>>
    decreases files.len(),
{
    if files.len() == 0 {
        Seq::empty()
    } else {
        let front = uncached(files.drop_last(), cached);
        if is_cached(cached, files.last()) {
            front
        } else {
            front.push(files.last())
        }
    }
}

fn has_cached_feature(cached: &Vec<Feature>, path: &String) -> (r: bool)
    ensures
        r == is_cached(feature_views(cached@), path@),
{
    let ghost views = feature_views(cached@);
    let mut j: usize = 0;
    while j < cached.len()
        invariant
            j <= cached.len(),
            views == feature_views(cached@),
            forall|k: int| 0 <= k < j ==> views[k].source_file != path@,
        decreases cached.len() - j,
    {
        if cached[j].has_source_file(path) {
            assert(views[j as int].source_file == path@);
            return true;
        }
        j = j + 1;
    }
    false
}

/// The candidate files whose features must be computed: those with no
/// cached feature. Fails with `NoFilesFound` where there is no candidate.
pub fn files_to_analyze(files: &Vec<String>, cached: &Vec<Feature>) -> (r: Result<
    Vec<String>,
    ExtractError,
>)
    ensures
        files@.len() == 0 ==> r == Err::<Vec<String>, ExtractError>(ExtractError::NoFilesFound),
        files@.len() > 0 ==> (r matches Ok(p) && string_views(p@) == uncached(
            string_views(files@),
            feature_views(cached@),
        )),
{
    if files.len() == 0 {
        return Err(ExtractError::NoFilesFound);
    }
    let ghost all = string_views(files@);
    let ghost views = feature_views(cached@);
    let mut pending: Vec<String> = Vec::new();
    let mut i: usize = 0;
    while i < files.len()
        invariant
            i <= files.len(),
            all == string_views(files@),
            views == feature_views(cached@),
            string_views(pending@) == uncached(all.subrange(0, i as int), views),
        decreases files.len() - i,
    {
        let ghost before = pending@;
        assert(all.subrange(0, i + 1).drop_last() =~= all.subrange(0, i as int));
        if !has_cached_feature(cached, &files[i]) {
            pending.push(files[i].clone());
            assert(string_views(pending@) =~= string_views(before).push(all[i as int]));
        }
        i = i + 1;
    }
    assert(all.subrange(0, files.len() as int) =~= all);
    Ok(pending)
}

/// A file with a cached feature is never analysed again: where every
/// candidate is cached, nothing is left to compute.
pub proof fn lemma_cached_files_are_skipped(files: Seq<Seq<char>>, cached: Seq<FeatureView>)
    requires
        forall|k: int| 0 <= k < files.len() ==> is_cached(cached, #[trigger] files[k]),
    ensures
        uncached(files, cached).len() == 0,
    decreases files.len(),
{
    if files.len() > 0 {
        let front = files.drop_last();
        assert forall|k: int| 0 <= k < front.len() implies is_cached(cached, #[trigger] front[k]) by {
            assert(front[k] == files[k]);
        }
        lemma_cached_files_are_skipped(front, cached);
        assert(is_cached(cached, files[files.len() - 1]));
    }
}

} // verus!
