//! Runtime configuration of the serving layer.
use vstd::prelude::*;

verus! {

/// Token-signing settings. Read from the environment by the program around
/// the library.
#[derive(Debug, Clone)]
pub struct Config {
    pub jwt_secret: String,
    pub jwt_expires_in: u64,
    pub jwt_maxage: i64,
}

} // verus!
