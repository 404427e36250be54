//! Call-forwarding rule management for a PBX deployment.
//!
//! The crate keeps a store of call-forward rules under the invariant that no
//! two rules from the same extension apply in overlapping contexts, resolves
//! routing queries by first-match over the stored rules, and implements the
//! nonce-based challenge/response authentication used by the routing-query
//! protocol.

pub mod agi_server;
pub mod db;
pub mod types;
pub mod web_server;
