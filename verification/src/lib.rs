//! Loader and validator for a corpus of Indus Valley Civilization
//! inscriptions.
//!
//! The dataset consists of sign-definition records (a feature catalog) and
//! artefact records (faces bearing sequences of sign occurrences).  This
//! crate holds the validation core: building a catalog from parsed records
//! while enforcing identifier/filename agreement and global allograph-code
//! uniqueness, and validating a corpus of artefacts against that catalog
//! (face-id/filename agreement and per-sign feature counts).
//!
//! Reading the record files from disk and decoding them is left to callers;
//! the functions here are pure: they take the already-decoded records
//! together with the file names they came from.

pub mod catalog;
pub mod corpus;
pub mod error;
pub mod records;
pub mod text;

pub use records::Artefact;
pub use records::ArtefactFace;
pub use records::FeatureDescriptor;
pub use records::FeatureFile;
pub use records::Grapheme;
