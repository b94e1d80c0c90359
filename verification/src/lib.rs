//! Command-runtime gateway and ingestion durability core.
//!
//! The crate gathers the pieces of a workstation-resident service: signed
//! session tokens and the three transport adapters that check them (loopback
//! HTTP, length-framed STDIO, Unix-domain sockets), the capability-gated
//! command router they share, and the ingestion pipeline that plans, scrubs,
//! embeds and durably emits manifest diffs through an offline-tolerant replay
//! buffer into an encrypted key-value store.

pub mod buffer;
pub mod crypto;
pub mod embed;
pub mod emitter;
pub mod http;
pub mod json;
pub mod jsonparse;
pub mod kms;
pub mod ledger;
pub mod matrix;
pub mod numfmt;
pub mod planner;
pub mod quota;
pub mod router;
pub mod sanitize;
pub mod stdio;
pub mod store;
pub mod strutil;
pub mod token;
pub mod uds;
pub mod wire;
pub mod workspace;
