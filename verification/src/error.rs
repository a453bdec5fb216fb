//! The error taxonomy of the loader.  Every violation aborts the load that
//! found it; the variant carries enough context to locate the bad record.

use vstd::prelude::*;

verus! {

/// The first violation found while building a catalog or validating a
/// corpus.
#[derive(Debug)]
pub enum LoadError {
    /// A catalog record's internal id disagrees with the id derived from
    /// its file's base name.
    IdentifierMismatch {
        /// The id derived from the file's base name.
        file_id: String,
        /// The id the record itself carries.
        record_id: String,
    },
    /// An allograph code does not match its scheme's fixed pattern
    /// (scheme letter followed by three digits).
    MalformedCode {
        /// The offending code.
        code: String,
        /// The id of the sign definition that lists it.
        sign_id: String,
    },
    /// An allograph code appears more than once across the whole catalog.
    DuplicateCode {
        /// The code that was seen a second time.
        code: String,
    },
    /// A name that should carry a numeric component has none, or its
    /// digits exceed the representable range.
    ParseFailure {
        /// The text from which no number could be read.
        text: String,
    },
    /// An artefact file's numeric component disagrees with a face's own
    /// numeric id.
    FaceIdMismatch {
        /// The artefact file's base name.
        file_name: String,
        /// The face's id.
        face_id: String,
        /// The number encoded in the file's base name.
        file_number: u64,
        /// The number encoded in the face's id.
        face_number: u64,
    },
    /// A face references a sign id absent from the catalog.
    UnknownSign {
        /// The sign id that was not found.
        sign_id: String,
    },
    /// A face's sign reference carries the wrong number of attribute
    /// values for its referenced sign.
    FeatureCountMismatch {
        /// The referenced sign's id.
        sign_id: String,
        /// Three default attributes plus the sign's own attribute count.
        expected: u128,
        /// The number of attribute values the reference supplies.
        actual: u128,
        /// The base name of the artefact file holding the reference.
        file_name: String,
    },
}

} // verus!
