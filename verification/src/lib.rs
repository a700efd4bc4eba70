//! Similarity search over embedding vectors, as a library of rules.
//!
//! - [`similarity`]: scores as ordered integers.
//! - [`cosine`]: what is known of a cosine without arithmetic.
//! - [`ranking`]: which entries match a query and in which order they are listed.
//! - [`index`]: the entries, adding to them and searching them.
//! - [`snapshot`]: the index as plain values, for writing out and reading back.
//! - [`framing`]: cutting the body out of a request and wrapping a response.
//! - [`api`]: queries and responses.
//! - [`gateway`]: the steps towards an embedding.
//! - [`dispatch`]: the course of one request.
//!
//! Floating-point arithmetic, sockets, files, locks and the calls to the
//! embedding provider are left to the program around the library: what they
//! yield is handed in as plain values.

pub mod api;
pub mod cosine;
pub mod dispatch;
pub mod framing;
pub mod gateway;
pub mod index;
pub mod ranking;
pub mod similarity;
pub mod snapshot;
