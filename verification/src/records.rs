//! The record types of the dataset: sign definitions (feature files) and
//! artefact faces with their sign occurrences.

use vstd::prelude::*;

verus! {

/// A single artefact is a sequence of inscribed faces, in the order they
/// appear in the artefact's record file (e.g. obverse then reverse).
pub type Artefact = Vec<ArtefactFace>;

/// One inscribed face of an artefact, e.g. "M-102A" for face A of
/// Mohenjo-Daro seal 102.
#[derive(Debug)]
pub struct ArtefactFace {
    /// The face id; its digits encode the artefact number.
    pub id: String,
    /// Free-text description of the face, like "Unicorn IV seal".
    pub description: String,
    /// The graphemes on the face, in left-to-right reading order.
    pub graphemes: Vec<Grapheme>,
}

/// One occurrence of a sign on an artefact face.
#[derive(Debug)]
pub struct Grapheme {
    /// The sign id, e.g. "P102" for Parpola's sign 102.
    pub id: String,
    /// The attribute values recorded for this occurrence.  The first three
    /// are the always-present default attributes "damage" (0-100),
    /// "line" (vertical line number) and "uncertainty" (0-100); the rest
    /// correspond positionally to the referenced sign's own attributes.
    pub features: Vec<u64>,
}

impl Grapheme {
    /// The number of attribute values recorded for this occurrence.
    #[must_use]
    pub fn get_feature_count(&self) -> (n: usize)
        ensures
            n == self.features@.len(),
    {
        self.features.len()
    }
}

/// One named attribute of a sign definition, e.g. the number of tines on
/// the "pitchfork" sign.
#[derive(Debug)]
pub struct FeatureDescriptor {
    /// A short human- and machine-readable name for the attribute.
    pub tag: String,
    /// A description of the attribute's possible values.
    pub description: String,
}

/// One sign definition from the feature catalog, keyed by a Parpola-scheme
/// id such as "P102".
#[derive(Debug)]
pub struct FeatureFile {
    /// The sign id, e.g. "P102" for Parpola's sign 102.
    pub id: String,
    /// Free-text description of the sign.
    pub description: String,
    /// Allograph codes for this sign from Parpola's 1988 sign list,
    /// each of the form "V" followed by three digits.
    pub parpola_graphemes: Vec<String>,
    /// Allograph codes for this sign from Wells's 2015 sign list,
    /// each of the form "W" followed by three digits.
    pub wells_graphemes: Vec<String>,
    /// Correspondence codes from Mahadevan's 1977 sign list.
    pub mahadevan_graphemes: Vec<String>,
    /// The sign's own attributes, in the order face records supply their
    /// values (after the three default attributes).
    pub features: Vec<FeatureDescriptor>,
}

impl FeatureFile {
    /// The number of attributes this sign defines, not counting the three
    /// default attributes every occurrence carries.
    #[must_use]
    pub fn get_feature_count(&self) -> (n: usize)
        ensures
            n == self.features@.len(),
    {
        self.features.len()
    }
}

} // verus!
