//! Account registration, deletion and credential-based session issuance.
//!
//! `credential` keeps credentials only as salted hashes, `store` holds the
//! account table and its uniqueness invariant, `token` issues and checks
//! signed session tokens, `service` turns store and signing results into the
//! outcomes reported to callers, and `messages` holds the request and
//! response records exchanged at the boundary.
pub mod credential;
pub mod messages;
pub mod store;
pub mod token;
pub mod service;
