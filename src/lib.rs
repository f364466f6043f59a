//! A discrete-event simulator for timed transition networks.
//!
//! A network is an arena of transitions that refer to each other by
//! position. Each step fires every enabled transition, pushes deferred
//! effects onto an event queue, advances the clock and drains the queue.

pub mod engine;
pub mod error;
pub mod json;
pub mod lemmas;
pub mod polyfill;
