//! Axis and button rules: how one analog axis or one digital button drives
//! simulated keys.
//!
//! An axis rule holds a dead-zone threshold and a pair of keys. A value
//! strictly below the negated threshold presses the low key, a value strictly
//! above the threshold presses the high key, and anything else — the
//! threshold itself included — falls in the dead zone and releases both keys.
//! A button rule presses its key while the button's intensity strictly
//! exceeds `HALF_UNIT` and releases it otherwise.

use vstd::prelude::*;

use crate::ids::{AxisId, ButtonId, KeyId, KeyTransition, HALF_UNIT, UNIT};
use crate::ledger::{
    key_press_once, key_release_once, press_effect, press_emits, release_effect, release_emits,
    KeyLedger,
};

verus! {

/// Maps one analog axis to a pair of keys via a dead-zone threshold.
#[derive(Clone, Copy, PartialEq, Eq, Structural, Debug)]
pub struct AxisCfg {
    pub axis: AxisId,
    pub high_key: KeyId,
    pub low_key: KeyId,
    pub threshold: i32,
}

/// Maps one digital button to one key.
#[derive(Clone, Copy, PartialEq, Eq, Structural, Debug)]
pub struct ButtonCfg {
    pub button: ButtonId,
    pub key: KeyId,
}

impl AxisCfg {
    /// The threshold lies in the half-open unit interval: zero excluded,
    /// full deflection included.
    pub open spec fn wf(self) -> bool {
        0 < self.threshold <= UNIT
    }

    /// The ledger state after this rule is evaluated at `value`.
    pub open spec fn apply_effect(self, value: int, s: Set<KeyId>) -> Set<KeyId> {
        if value < -self.threshold {
            press_effect(s, self.low_key)
        } else if value > self.threshold {
            press_effect(s, self.high_key)
        } else {
            release_effect(release_effect(s, self.low_key), self.high_key)
        }
    }

    /// The transitions emitted when this rule is evaluated at `value`.
    pub open spec fn apply_emits(self, value: int, s: Set<KeyId>) -> Seq<KeyTransition> {
        if value < -self.threshold {
            press_emits(s, self.low_key)
        } else if value > self.threshold {
            press_emits(s, self.high_key)
        } else {
            release_emits(s, self.low_key) + release_emits(
                release_effect(s, self.low_key),
                self.high_key,
            )
        }
    }

    /// The ledger state after a discrete axis event: a rule for another axis
    /// leaves the ledger alone.
    pub open spec fn event_effect(self, axis: AxisId, value: int, s: Set<KeyId>) -> Set<KeyId> {
        if axis == self.axis {
            self.apply_effect(value, s)
        } else {
            s
        }
    }

    /// The transitions emitted by a discrete axis event.
    pub open spec fn event_emits(self, axis: AxisId, value: int, s: Set<KeyId>) -> Seq<
        KeyTransition,
    > {
        if axis == self.axis {
            self.apply_emits(value, s)
        } else {
            Seq::empty()
        }
    }

    /// Evaluate this rule at `value`: press the low key below the dead zone,
    /// press the high key above it, release both keys inside it.
    pub fn apply_value(
        &self,
        value: i32,
        key_state: &mut KeyLedger,
        out: &mut Vec<KeyTransition>,
    )
        requires
            self.wf(),
            old(key_state).wf(),
        ensures
            final(key_state).wf(),
            final(key_state)@ == self.apply_effect(value as int, old(key_state)@),
            final(out)@ == old(out)@ + self.apply_emits(value as int, old(key_state)@),
    {
        if value < -self.threshold {
            key_press_once(key_state, self.low_key, out);
        } else if value > self.threshold {
            key_press_once(key_state, self.high_key, out);
        } else {
            let ghost o0 = out@;
            key_release_once(key_state, self.low_key, out);
            key_release_once(key_state, self.high_key, out);
            proof {
                assert(out@ =~= o0 + self.apply_emits(value as int, old(key_state)@));
            }
        }
    }

    /// Evaluate this rule against a discrete axis event. An event for another
    /// axis is ignored.
    pub fn handle_event(
        &self,
        axis: AxisId,
        axis_value: i32,
        key_state: &mut KeyLedger,
        out: &mut Vec<KeyTransition>,
    )
        requires
            self.wf(),
            old(key_state).wf(),
        ensures
            final(key_state).wf(),
            final(key_state)@ == self.event_effect(axis, axis_value as int, old(key_state)@),
            final(out)@ == old(out)@ + self.event_emits(axis, axis_value as int, old(key_state)@),
    {
        if axis != self.axis {
            proof {
                assert(out@ =~= out@ + Seq::<KeyTransition>::empty());
            }
            return ;
        }
        self.apply_value(axis_value, key_state, out);
    }
}

impl ButtonCfg {
    /// The ledger state after this rule is evaluated at intensity `value`.
    pub open spec fn apply_effect(self, value: int, s: Set<KeyId>) -> Set<KeyId> {
        if value > HALF_UNIT {
            press_effect(s, self.key)
        } else {
            release_effect(s, self.key)
        }
    }

    /// The transitions emitted when this rule is evaluated at intensity
    /// `value`.
    pub open spec fn apply_emits(self, value: int, s: Set<KeyId>) -> Seq<KeyTransition> {
        if value > HALF_UNIT {
            press_emits(s, self.key)
        } else {
            release_emits(s, self.key)
        }
    }

    /// Evaluate this rule at intensity `value`: press the key above half
    /// deflection, release it otherwise.
    pub fn apply_value(
        &self,
        value: i32,
        key_state: &mut KeyLedger,
        out: &mut Vec<KeyTransition>,
    )
        requires
            old(key_state).wf(),
        ensures
            final(key_state).wf(),
            final(key_state)@ == self.apply_effect(value as int, old(key_state)@),
            final(out)@ == old(out)@ + self.apply_emits(value as int, old(key_state)@),
    {
        if value > HALF_UNIT {
            key_press_once(key_state, self.key, out);
        } else {
            key_release_once(key_state, self.key, out);
        }
    }
}

} // verus!
