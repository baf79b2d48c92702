//! Cord: a publish/subscribe broker for namespaced data streams.
//!
//! The library holds the broker's logic: namespace patterns, the message
//! type and its wire framing, the publishers' subscription tables, the
//! client's receiver table, and the bookkeeping of the load generator.
pub mod buffer;
pub mod pattern;
pub mod message;
pub mod codec;
pub mod subscriptions;
pub mod broker;
pub mod receivers;
pub mod generators;
pub mod streams;
