//! Interval algebra for a network scanner's target descriptions: inclusive
//! ranges over a totally ordered type, canonicalization of range collections,
//! and parsers that turn nmap-style IP and port specifications into canonical,
//! version-tagged range sets.

pub mod config;
pub mod ip;
pub mod order;
pub mod ports;
pub mod range;
pub mod ranges;
pub mod text;

pub use order::LinearOrder;
pub use range::{Range, RangeError};
