//! Favorites: the request shape and the normalization a favorite word goes
//! through before it is stored.
use vstd::prelude::*;

verus! {

/// A request to mark one word as a favorite.
#[derive(Debug, Clone)]
pub struct AddFavoriteRequest {
    pub word: String,
}

/// Trims and lowercases a favorite word; an empty result is rejected.
pub fn normalize_favorite(word: &str) -> (r: Option<String>)
    ensures
        match r {
            Some(w) => w@ == crate::text::lower_of(crate::text::trim_spec(word@)) && w@.len() > 0,
            None => crate::text::lower_of(crate::text::trim_spec(word@)).len() == 0,
        },
{
    let t = crate::text::trim_str(word);
    let w = crate::text::lowercase(t.as_str());
    if w.as_str().is_empty() {
        None
    } else {
        Some(w)
    }
}

} // verus!
