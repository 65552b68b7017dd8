//! An on-ledger domain-name registry: accounts hold a time-bounded, exclusive
//! claim on a top-level name, attach subdomains to it, and attach DNS-style
//! resource records to subdomains. Expired leases are reclaimed lazily, by the
//! next operation that touches the domain.
//!
//! The whole registry is a pure state machine: every public operation is a
//! transition on an explicit state aggregate, and the surrounding ledger host
//! (storage, currency, clock, dispatch) hands in plain values.

pub mod model;
pub mod name;
pub mod price;
pub mod registry;
pub mod table;
pub mod types;
