//! Plain identifiers for keys, axes and buttons, and the transition type
//! emitted by the ledger.
//!
//! The identifiers are small integers chosen by the caller (for instance an
//! index into a table of concrete OS key codes); the library only compares
//! them for equality.

use vstd::prelude::*;

verus! {

/// Full deflection of an analog axis or button, in fixed-point units.
pub const UNIT: i32 = 1000;

/// The value above which a digital button read as an analog intensity counts
/// as pressed (one half of full deflection, strictly exceeded).
pub const HALF_UNIT: i32 = 500;

/// Identifies one simulated keyboard key.
#[derive(Clone, Copy, PartialEq, Eq, Structural, Debug, Hash)]
pub struct KeyId(pub u16);

/// Identifies one analog axis of a controller.
#[derive(Clone, Copy, PartialEq, Eq, Structural, Debug, Hash)]
pub struct AxisId(pub u16);

/// Identifies one digital button of a controller.
#[derive(Clone, Copy, PartialEq, Eq, Structural, Debug, Hash)]
pub struct ButtonId(pub u16);

/// One keyboard transition requested from the key-injection sink.
#[derive(Clone, Copy, PartialEq, Eq, Structural, Debug)]
pub enum KeyTransition {
    Press(KeyId),
    Release(KeyId),
}

} // verus!
