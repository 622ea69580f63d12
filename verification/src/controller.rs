//! The microcontroller pin interface scan algorithms drive.
//!
//! The engine models the hardware as a set of pins with a configurable
//! direction and polarity; the host implements [`PinSet`] on top of its
//! actual peripherals.

use vstd::prelude::*;

verus! {

/// Whether a pin is driven by the controller or read by it.
#[derive(Clone, Copy, Debug, PartialEq, Eq, Structural)]
pub enum PinType {
    Input,
    Output,
}

/// An upper bound for the number of pins a scan algorithm can use.
pub const MAX_PINS: usize = 30;

/// A set of controller pins. Implementations live outside the engine; the
/// engine assumes nothing about them.
pub trait PinSet {
    /// The number of pins in this collection.
    fn len(&self) -> usize;

    /// Make pin with index `pin` an input.
    fn set_pin_input(&mut self, pin: usize);

    /// Make pin with index `pin` an output.
    fn set_pin_output(&mut self, pin: usize);

    /// Make pin with index `pin` active-high: high voltage reads as true.
    fn set_pin_active_high(&mut self, pin: usize);

    /// Make pin with index `pin` active-low: high voltage reads as false.
    fn set_pin_active_low(&mut self, pin: usize);

    /// The logical state of input pin `pin`, after polarity.
    fn get_pin_state(&self, pin: usize) -> bool;

    /// Drive output pin `pin` to logical state `state`, after polarity.
    fn set_pin_state(&mut self, pin: usize, state: bool);

    /// Set the polarity of pin `pin` from a boolean: true for active-high,
    /// false for active-low.
    fn set_pin_active_bool(&mut self, pin: usize, active_val: bool) {
        if active_val {
            self.set_pin_active_high(pin);
        } else {
            self.set_pin_active_low(pin);
        }
    }
}

} // verus!
