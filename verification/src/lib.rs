//! A browser-style authentication session engine: it tracks login state
//! against an identity provider, decodes access-token claims into a
//! permission set, and notifies subscribers whenever the session changes.
//!
//! The crate is organised leaf-first:
//! - [`model`] holds the plain data types (user profile, session snapshot,
//!   configuration, errors).
//! - [`json`] is a small JSON reader and writer used for token claims.
//! - [`base64url`] decodes the base64url token segments.
//! - [`claims`] turns a compact token string into a claims object.
//! - [`store`] is the session snapshot store.
//! - [`bus`] is the subscriber registry and notification fan-out.
//! - [`engine`] is the polling state machine driving the poll cycles.
//! - [`service`] is the caller-facing facade.
//!
//! A private `text` module carries the trusted bridges to std's UTF-8
//! and string primitives.

pub mod base64url;
pub mod bus;
pub mod claims;
pub mod engine;
pub mod json;
pub mod model;
pub mod service;
pub mod store;
mod text;
