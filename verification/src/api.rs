//! The data contract consumed by the serving layer: the document shape, the
//! relation categories, request schemas, and the pure selection logic behind
//! the read-only endpoints.
pub mod activity;
pub mod auth;
pub mod favorites;
pub mod thesaurus;
pub mod user;
pub mod word;
