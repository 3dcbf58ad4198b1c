//! An embedding tagged with the file it was computed from and, once the
//! metadata store has minted it, that file's stable id.
use vstd::prelude::*;

use crate::embedding::Embedding;

verus! {

/// What a `Feature` holds, as plain values.
pub struct FeatureView {
    pub source_file: Seq<char>,
    pub embedding: Seq<u32>,
    pub id: Option<i64>,
}

pub struct Feature {
    feature_vector: Embedding,
    source_file: String,
    id: Option<i64>,
}

impl View for Feature {
    type V = FeatureView;

    closed spec fn view(&self) -> FeatureView {
        FeatureView {
            source_file: self.source_file@,
            embedding: self.feature_vector@,
            id: self.id,
        }
    }
}

/// The views of a sequence of features.
pub open spec fn feature_views(s: Seq<Feature>) -> Seq<FeatureView> {
    s.map_values(|f: Feature| f@)
}

/// The views of a sequence of strings.
pub open spec fn string_views(s: Seq<String>) -> Seq<Seq<char>> {
    s.map_values(|x: String| x@)
}

impl Feature {
    pub fn new(feature_vector: Embedding, source_file: String, id: Option<i64>) -> (r: Feature)
        ensures
            r@ == (FeatureView { source_file: source_file@, embedding: feature_vector@, id }),
    {
        Feature { feature_vector, source_file, id }
    }

    pub fn feature_vector(&self) -> (r: &Embedding)
        ensures
            r@ == self@.embedding,
    {
        &self.feature_vector
    }

    pub fn source_file(&self) -> (r: &str)
        ensures
            r@ == self@.source_file,
    {
        self.source_file.as_str()
    }

    pub fn id(&self) -> (r: &Option<i64>)
        ensures
            *r == self@.id,
    {
        &self.id
    }

    /// Whether this feature was computed from the file `path`.
    pub fn has_source_file(&self, path: &String) -> (r: bool)
        ensures
            r == (self@.source_file == path@),
    {
        self.source_file == *path
    }

    /// Records the stable id that the metadata store gave this feature's file.
    pub fn set_id(&mut self, id: i64)
        ensures
            final(self)@ == (FeatureView { id: Some(id), ..old(self)@ }),
    {
        self.id = Some(id);
    }

    /// A copy with the same file, values and id.
    pub fn duplicate(&self) -> (r: Feature)
        ensures
            r@ == self@,
    {
        Feature {
            feature_vector: self.feature_vector.duplicate(),
            source_file: self.source_file.clone(),
            id: self.id,
        }
    }
}

} // verus!
