//! Translates game-controller input (analog axes and digital buttons) into a
//! minimal sequence of simulated keyboard down/up transitions.
//!
//! The heart of the library is a debounced, idempotent key-state ledger: rule
//! evaluation may request the same press or release many times, but a
//! transition is emitted only when the logical state of the key actually
//! changes. Axis rules map one analog axis to a pair of keys through a
//! dead-zone threshold; button rules map one digital button to one key; a
//! device mapping binds rules to one physical controller, and the mapping
//! table dispatches each input sample to the mapping of its device.
//!
//! Analog values are fixed-point integers: full deflection is `UNIT` (1000),
//! so a threshold of three tenths is written 300. The caller converts the
//! controller's native readings to this scale and performs the actual OS key
//! injection from the transitions this library returns.

pub mod ids;
pub mod laws;
pub mod ledger;
pub mod mapping;
pub mod rules;
pub mod snapshot;
