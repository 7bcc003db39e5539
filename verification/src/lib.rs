//! A ranked store of token observations.
//!
//! Tokens are observed over time; each token keeps an ascending history of the
//! instants at which it was seen. Stale history is aged out, and the token
//! that is currently most popular can be selected with a bounded random boost.

pub mod chance;
pub mod cycle;
pub mod ingest;
pub mod sorted_vec;
pub mod store;
pub mod text;
