//! A channel-lifecycle engine for a guild-based chat platform.
//!
//! The library observes message activity in a fixed set of managed channels
//! and decides, for each one, whether it belongs in an active category or in
//! the inactive category, honouring moderator-issued archive overrides and
//! keeping every category alphabetically ordered with an optional sticky
//! channel pinned to the front.  All decisions are pure functions from a
//! snapshot of the guild to a set of mutations; the surrounding process is
//! expected to fetch the snapshot, apply the mutations, and persist the
//! override table.

pub mod laws;
pub mod model;
pub mod activity;
pub mod codec;
pub mod plan;
pub mod reconcile;
pub mod resolve;
pub mod store;
pub mod text;
