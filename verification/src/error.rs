//! The fatal failure kinds of the import pipeline. Everything else — dangling
//! references, unknown relation tags, malformed lemmas — is tolerated and
//! skipped, never an error.
use vstd::prelude::*;

verus! {

/// Why an import run stopped, with a human-readable detail.
#[derive(Debug, Clone)]
pub enum ImportError {
    /// The source archive could not be obtained or unpacked.
    AcquisitionFailed(String),
    /// The XML was malformed or an element missed a required attribute.
    ParseFailed(String),
    /// The search backend rejected the index configuration.
    IndexConfigFailed(String),
    /// One upload batch was rejected; the run goes on with the next batch.
    BatchUploadFailed(String),
}

impl ImportError {
    /// The detail line carried by the error.
    pub fn message(&self) -> (r: &String)
        ensures
            r@ == match *self {
                ImportError::AcquisitionFailed(m) => m@,
                ImportError::ParseFailed(m) => m@,
                ImportError::IndexConfigFailed(m) => m@,
                ImportError::BatchUploadFailed(m) => m@,
            },
    {
        match self {
            ImportError::AcquisitionFailed(m) => m,
            ImportError::ParseFailed(m) => m,
            ImportError::IndexConfigFailed(m) => m,
            ImportError::BatchUploadFailed(m) => m,
        }
    }
}

/// The detail of a parse failure: `<element> missing <attribute>`.
pub open spec fn missing_attr_msg(element: Seq<char>, attribute: Seq<char>) -> Seq<char> {
    element + seq![' ', 'm', 'i', 's', 's', 'i', 'n', 'g', ' '] + attribute
}

/// Builds the detail line for a required attribute that is absent.
pub fn missing_attr(element: &str, attribute: &str) -> (r: String)
    ensures
        r@ == missing_attr_msg(element@, attribute@),
{
    let mut r = String::from_str(element);
    crate::text::push_char(&mut r, ' ');
    crate::text::push_char(&mut r, 'm');
    crate::text::push_char(&mut r, 'i');
    crate::text::push_char(&mut r, 's');
    crate::text::push_char(&mut r, 's');
    crate::text::push_char(&mut r, 'i');
    crate::text::push_char(&mut r, 'n');
    crate::text::push_char(&mut r, 'g');
    crate::text::push_char(&mut r, ' ');
    r.append(attribute);
    proof {
        assert(r@ =~= missing_attr_msg(element@, attribute@));
    }
    r
}

} // verus!
