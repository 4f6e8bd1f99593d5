//! Protocol types for a directory-style identity service.
//!
//! Clients build filter queries (a recursive boolean algebra over attribute
//! assertions) and drive a stepwise authentication negotiation; the library
//! defines those protocol objects, a canonical form for filters, a wire
//! codec for filters, the left-to-right semantics of modification lists,
//! and the legal-transition rules of the authentication session store.

pub mod auth;
pub mod codec;
pub mod entry;
pub mod errors;
pub mod filter;
pub mod proto;
pub mod types;
