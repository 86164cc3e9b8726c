//! Authority rotation for a proof-of-stake beacon chain.
//!
//! Every executable function in this crate carries a contract over the
//! mathematical model of its data, and Verus proves each body against it.

pub mod assignment;
pub mod authority;
pub mod decimal;
pub mod laws;
pub mod ledger;
pub mod message;
pub mod primitives;
pub mod testing_utils;
pub mod threshold;
pub mod types;
