//! Decision core of a programmable mechanical-keyboard firmware.
//!
//! The engine turns a time-varying bitmap of physical switches into a stream
//! of virtual-key and layer events. Per-key *behaviors* (plain key press,
//! momentary layer, hold/tap) govern the translation. All storage is
//! statically bounded and every operation is deterministic, driven by a host
//! main loop.

pub mod behavior;
pub mod controller;
pub mod event;
pub mod key;
pub mod layer;
pub mod physical_layout;
pub mod queue;
pub mod scanning;
pub mod state;
pub mod timer;
pub mod vboard;
