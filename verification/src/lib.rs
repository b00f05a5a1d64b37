//! An interval map: a map that gives every key of an ordered key type a
//! value, and stores only the keys at which the value changes.
//!
//! [`interval_map::IntervalMap`] is the container. [`steps::Steps`] is its
//! mathematical model, a step function, over which all contracts are
//! stated; `laws` holds what is proved of assignment and lookup on every
//! step function, `bounds` the facts about nearest breakpoints that those
//! proofs rest on, and `order` the assumptions on the key and value types.
pub mod bounds;
pub mod interval_map;
pub mod laws;
pub mod order;
pub mod steps;
