//! An ordered key-value storage layer.
//!
//! Keys and values are opaque byte sequences; keys are totally ordered by
//! byte-wise lexicographic comparison ([`order`]). The [`storage`] module
//! states the contract every backend must satisfy — point read, point write,
//! point remove, and ordered range scan over [`range`] bounds — with its
//! contents modelled as a map from key bytes to value bytes. The [`memory`]
//! module provides the verified in-memory reference backend, [`laws`] proves
//! the behavioral laws every conforming backend inherits, and [`suite`] is
//! the conformance battery run against a backend instance.

pub mod error;
pub mod laws;
pub mod memory;
pub mod order;
pub mod range;
pub mod storage;
pub mod suite;
