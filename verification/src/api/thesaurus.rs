//! The search request as the thesaurus endpoints receive it.
use vstd::prelude::*;

verus! {

/// A thesaurus search request.
#[derive(Debug, Clone)]
pub struct SearchQuery {
    pub q: String,
    pub offset: usize,
    pub limit: usize,
    pub pos: Option<String>,
    pub exact_match: Option<bool>,
}

/// Where a search starts when no offset is given.
pub fn default_offset() -> (r: usize)
    ensures
        r == 0,
{
    0
}

/// How many hits a search returns when no limit is given.
pub fn default_limit() -> (r: usize)
    ensures
        r == 20,
{
    20
}

} // verus!
