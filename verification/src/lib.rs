//! Core of an RPKI Certificate Authority engine.
//!
//! The crate tracks, for every CA in a delegation hierarchy (including the
//! Trust Anchor root), which Internet number resources (ASNs, IPv4/IPv6
//! prefixes) it is authorized to certify, and records every state transition
//! as an immutable, replayable event log.

pub mod eventsourcing;
pub mod grammar;
pub mod resourceset;
pub mod server;
pub mod trustanchor;
pub mod ranges;
pub mod text;
