//! Account request schemas and the claims carried inside an access token.
use vstd::prelude::*;

verus! {

/// What a registration request carries.
#[derive(Debug, Clone)]
pub struct RegisterUserSchema {
    pub name: String,
    pub email: String,
    pub password: String,
}

/// What a login request carries.
#[derive(Debug, Clone)]
pub struct LoginUserSchema {
    pub email: String,
    pub password: String,
}

/// The claims encoded into an access token: subject, issue time and expiry,
/// both as unix seconds.
#[derive(Debug, Clone)]
pub struct TokenClaims {
    pub sub: String,
    pub iat: usize,
    pub exp: usize,
}

impl TokenClaims {
    /// Claims issued at `iat` that stay valid for `maxage_minutes` minutes.
    pub fn new(sub: String, iat: usize, maxage_minutes: usize) -> (r: TokenClaims)
        requires
            iat + 60 * maxage_minutes <= usize::MAX,
        ensures
            r.sub@ == sub@,
            r.iat == iat,
            r.exp == iat + 60 * maxage_minutes,
    {
        TokenClaims { sub, iat, exp: iat + 60 * maxage_minutes }
    }
}

} // verus!
