//! A tamper-evident evidence ledger for ML governance: hash-chained records,
//! policy gates over run history, and canonical, hashable run bundles.
pub mod digest;
pub mod chain;
pub mod order;
pub mod json;
pub mod event;
pub mod policy;
pub mod bundle;
pub mod ledger;
