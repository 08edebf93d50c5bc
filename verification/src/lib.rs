//! RoCEv2 packet spraying: egress encapsulation across multiple links and
//! in-order reassembly per queue pair on ingress.
//!
//! The crate is organised around the data path. `bth` and `wire` hold the
//! fixed-layout header codecs, `mask` the reversible path-selection port
//! rewrite and `mac` the address conversions. On egress, `flow` caches
//! resolved next hops and `encap` wraps packets into sprayed frames. On
//! ingress, `decap` strips frames, `tracker` keeps the per-QP sequence
//! state machine, `reorder` holds the out-of-order buffer, `receiver`
//! joins the last two into the admission classifier and drain engine, and
//! `order` proves the delivery-order guarantees. Around the data path,
//! `pump` keeps the I/O loop's counters, `stats` the delivery statistics,
//! `gen` builds scripted traffic, and `disco` and `config` carry the
//! discovery and build configuration.

pub mod bth;
pub mod config;
pub mod decap;
pub mod disco;
pub mod encap;
pub mod flow;
pub mod gen;
pub mod mac;
pub mod mask;
pub mod order;
pub mod pump;
pub mod receiver;
pub mod reorder;
pub mod stats;
pub mod tracker;
pub mod wire;
