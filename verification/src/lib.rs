//! Immutable, fixed-capacity associative lookup tables whose contents are
//! sorted and checked for duplicate keys at construction time.
//!
//! A table is built exactly once from a fixed-size array of key/value pairs:
//! the builder sorts the pairs by key with an adjacent-exchange sort, refuses
//! the build if two keys compare equal, and lays the result out as two
//! index-aligned arrays (keys and values). After construction the table is
//! never mutated; lookups are binary searches over the sorted keys, either by
//! a key wrapper or by the raw value the wrapper is a view of.
//!
//! The generic machinery lives in [`lut`]; [`const_str`] supplies the
//! byte-lexicographic string key, and [`const_u64`] / [`const_i64`] the
//! numeric keys.

pub mod const_i64;
pub mod const_str;
pub mod const_u64;
pub mod lut;
