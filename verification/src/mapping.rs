//! Device mappings and the mapping table, with discrete-event dispatch.
//!
//! A `ControllerCfg` binds an ordered list of axis rules and button rules to
//! one physical controller; a `Config` is the ordered table of such mappings,
//! the mapping at position `n` serving the `n`-th connected device. A
//! discrete input event is dispatched to the mapping of its device alone; an
//! event for a device without a mapping is silently ignored.
//!
//! Axis events run every axis rule in configuration order through the ledger.
//! Button events follow the event-based strategy: the first rule for the
//! event's button emits its key transition unconditionally, without
//! consulting the ledger, so a duplicated button event is emitted twice.

use vstd::prelude::*;

use crate::ids::{AxisId, ButtonId, KeyId, KeyTransition};
use crate::ledger::KeyLedger;
use crate::rules::{AxisCfg, ButtonCfg};

verus! {

/// One discrete input sample from a controller.
#[derive(Clone, Copy, PartialEq, Eq, Structural, Debug)]
pub enum InputEvent {
    AxisChanged { axis: AxisId, value: i32 },
    ButtonPressed { button: ButtonId },
    ButtonReleased { button: ButtonId },
}

/// The rules bound to one physical controller.
#[derive(Debug)]
pub struct ControllerCfg {
    pub axes: Vec<AxisCfg>,
    pub buttons: Vec<ButtonCfg>,
}

/// The full mapping table: the mapping at position `n` serves device `n`.
#[derive(Debug)]
pub struct Config {
    pub controllers: Vec<ControllerCfg>,
}

/// The ledger state after every axis rule has seen a discrete axis event, in
/// configuration order.
pub open spec fn axes_event_effect(
    axes: Seq<AxisCfg>,
    axis: AxisId,
    value: int,
    s: Set<KeyId>,
) -> Set<KeyId>
    decreases axes.len(),
{
    if axes.len() == 0 {
        s
    } else {
        axes_event_effect(axes.drop_first(), axis, value, axes[0].event_effect(axis, value, s))
    }
}

/// The transitions emitted when every axis rule sees a discrete axis event,
/// in configuration order.
pub open spec fn axes_event_emits(
    axes: Seq<AxisCfg>,
    axis: AxisId,
    value: int,
    s: Set<KeyId>,
) -> Seq<KeyTransition>
    decreases axes.len(),
{
    if axes.len() == 0 {
        Seq::empty()
    } else {
        axes[0].event_emits(axis, value, s) + axes_event_emits(
            axes.drop_first(),
            axis,
            value,
            axes[0].event_effect(axis, value, s),
        )
    }
}

/// The first button rule configured for `b`, if any.
pub open spec fn button_rule_for(buttons: Seq<ButtonCfg>, b: ButtonId) -> Option<ButtonCfg>
    decreases buttons.len(),
{
    if buttons.len() == 0 {
        None
    } else if buttons[0].button == b {
        Some(buttons[0])
    } else {
        button_rule_for(buttons.drop_first(), b)
    }
}

/// One step of `axes_event_effect` / `axes_event_emits`, seen from position
/// `i` of the rule list.
pub proof fn lemma_axes_event_unfold(
    axes: Seq<AxisCfg>,
    i: int,
    axis: AxisId,
    value: int,
    s: Set<KeyId>,
)
    requires
        0 <= i < axes.len(),
    ensures
        axes_event_effect(axes.skip(i), axis, value, s) == axes_event_effect(
            axes.skip(i + 1),
            axis,
            value,
            axes[i].event_effect(axis, value, s),
        ),
        axes_event_emits(axes.skip(i), axis, value, s) == axes[i].event_emits(axis, value, s)
            + axes_event_emits(axes.skip(i + 1), axis, value, axes[i].event_effect(axis, value, s)),
{
    assert(axes.skip(i)[0] == axes[i]);
    assert(axes.skip(i).drop_first() =~= axes.skip(i + 1));
}

/// One step of `button_rule_for`, seen from position `i` of the rule list.
pub proof fn lemma_button_rule_unfold(buttons: Seq<ButtonCfg>, i: int, b: ButtonId)
    requires
        0 <= i < buttons.len(),
    ensures
        button_rule_for(buttons.skip(i), b) == if buttons[i].button == b {
            Some(buttons[i])
        } else {
            button_rule_for(buttons.skip(i + 1), b)
        },
{
    assert(buttons.skip(i)[0] == buttons[i]);
    assert(buttons.skip(i).drop_first() =~= buttons.skip(i + 1));
}

impl ControllerCfg {
    /// Every axis rule carries a valid threshold.
    pub open spec fn wf(self) -> bool {
        forall|i: int| 0 <= i < self.axes@.len() ==> (#[trigger] self.axes@[i]).wf()
    }

    /// The ledger state after this mapping sees a discrete event. Button
    /// events never touch the ledger (event-based strategy).
    pub open spec fn event_effect(self, event: InputEvent, s: Set<KeyId>) -> Set<KeyId> {
        match event {
            InputEvent::AxisChanged { axis, value } => axes_event_effect(
                self.axes@,
                axis,
                value as int,
                s,
            ),
            InputEvent::ButtonPressed { .. } => s,
            InputEvent::ButtonReleased { .. } => s,
        }
    }

    /// The transitions emitted when this mapping sees a discrete event.
    pub open spec fn event_emits(self, event: InputEvent, s: Set<KeyId>) -> Seq<KeyTransition> {
        match event {
            InputEvent::AxisChanged { axis, value } => axes_event_emits(
                self.axes@,
                axis,
                value as int,
                s,
            ),
            InputEvent::ButtonPressed { button } => match button_rule_for(self.buttons@, button) {
                Some(r) => seq![KeyTransition::Press(r.key)],
                None => Seq::empty(),
            },
            InputEvent::ButtonReleased { button } => match button_rule_for(self.buttons@, button) {
                Some(r) => seq![KeyTransition::Release(r.key)],
                None => Seq::empty(),
            },
        }
    }

    /// Dispatch one discrete event through this mapping's rules, in
    /// configuration order.
    pub fn handle_event(
        &self,
        event: InputEvent,
        key_state: &mut KeyLedger,
        out: &mut Vec<KeyTransition>,
    )
        requires
            self.wf(),
            old(key_state).wf(),
        ensures
            final(key_state).wf(),
            final(key_state)@ == self.event_effect(event, old(key_state)@),
            final(out)@ == old(out)@ + self.event_emits(event, old(key_state)@),
    {
        match event {
            InputEvent::AxisChanged { axis, value } => {
                let ghost s0 = key_state@;
                let ghost o0 = out@;
                let n = self.axes.len();
                let mut i: usize = 0;
                proof {
                    assert(self.axes@.skip(0) =~= self.axes@);
                }
                while i < n
                    invariant
                        i <= n,
                        n == self.axes@.len(),
                        self.wf(),
                        key_state.wf(),
                        s0 == old(key_state)@,
                        o0 == old(out)@,
                        event == (InputEvent::AxisChanged { axis, value }),
                        axes_event_effect(self.axes@, axis, value as int, s0) == axes_event_effect(
                            self.axes@.skip(i as int),
                            axis,
                            value as int,
                            key_state@,
                        ),
                        o0 + axes_event_emits(self.axes@, axis, value as int, s0) == out@
                            + axes_event_emits(
                            self.axes@.skip(i as int),
                            axis,
                            value as int,
                            key_state@,
                        ),
                    decreases n - i,
                {
                    let cfg = self.axes[i];
                    let ghost si = key_state@;
                    let ghost oi = out@;
                    cfg.handle_event(axis, value, key_state, out);
                    proof {
                        lemma_axes_event_unfold(self.axes@, i as int, axis, value as int, si);
                        assert(oi + (cfg.event_emits(axis, value as int, si) + axes_event_emits(
                            self.axes@.skip(i as int + 1),
                            axis,
                            value as int,
                            key_state@,
                        )) =~= out@ + axes_event_emits(
                            self.axes@.skip(i as int + 1),
                            axis,
                            value as int,
                            key_state@,
                        ));
                    }
                    i += 1;
                }
                proof {
                    assert(axes_event_emits(
                        self.axes@.skip(n as int),
                        axis,
                        value as int,
                        key_state@,
                    ) =~= Seq::<KeyTransition>::empty());
                    assert(out@ =~= out@ + Seq::<KeyTransition>::empty());
                }
            },
            InputEvent::ButtonPressed { button } => {
                let n = self.buttons.len();
                let mut i: usize = 0;
                proof {
                    assert(self.buttons@.skip(0) =~= self.buttons@);
                }
                while i < n
                    invariant
                        i <= n,
                        n == self.buttons@.len(),
                        key_state == old(key_state),
                        old(key_state).wf(),
                        out@ == old(out)@,
                        event == (InputEvent::ButtonPressed { button }),
                        button_rule_for(self.buttons@, button) == button_rule_for(
                            self.buttons@.skip(i as int),
                            button,
                        ),
                    decreases n - i,
                {
                    proof {
                        lemma_button_rule_unfold(self.buttons@, i as int, button);
                    }
                    if self.buttons[i].button == button {
                        out.push(KeyTransition::Press(self.buttons[i].key));
                        proof {
                            assert(out@ =~= old(out)@ + seq![
                                KeyTransition::Press(self.buttons@[i as int].key),
                            ]);
                        }
                        return ;
                    }
                    i += 1;
                }
                proof {
                    assert(button_rule_for(self.buttons@, button) is None);
                    assert(out@ =~= out@ + Seq::<KeyTransition>::empty());
                }
            },
            InputEvent::ButtonReleased { button } => {
                let n = self.buttons.len();
                let mut i: usize = 0;
                proof {
                    assert(self.buttons@.skip(0) =~= self.buttons@);
                }
                while i < n
                    invariant
                        i <= n,
                        n == self.buttons@.len(),
                        key_state == old(key_state),
                        old(key_state).wf(),
                        out@ == old(out)@,
                        event == (InputEvent::ButtonReleased { button }),
                        button_rule_for(self.buttons@, button) == button_rule_for(
                            self.buttons@.skip(i as int),
                            button,
                        ),
                    decreases n - i,
                {
                    proof {
                        lemma_button_rule_unfold(self.buttons@, i as int, button);
                    }
                    if self.buttons[i].button == button {
                        out.push(KeyTransition::Release(self.buttons[i].key));
                        proof {
                            assert(out@ =~= old(out)@ + seq![
                                KeyTransition::Release(self.buttons@[i as int].key),
                            ]);
                        }
                        return ;
                    }
                    i += 1;
                }
                proof {
                    assert(button_rule_for(self.buttons@, button) is None);
                    assert(out@ =~= out@ + Seq::<KeyTransition>::empty());
                }
            },
        }
    }
}

impl Config {
    /// Every mapping in the table is well formed.
    pub open spec fn wf(self) -> bool {
        forall|i: int| 0 <= i < self.controllers@.len() ==> (#[trigger] self.controllers@[i]).wf()
    }

    /// The ledger state after an event tagged with device `device` runs
    /// through the table: only that device's mapping is evaluated.
    pub open spec fn event_effect(self, event: InputEvent, device: int, s: Set<KeyId>) -> Set<
        KeyId,
    > {
        if 0 <= device < self.controllers@.len() {
            self.controllers@[device].event_effect(event, s)
        } else {
            s
        }
    }

    /// The transitions emitted for an event tagged with device `device`: none
    /// at all when no mapping serves that device.
    pub open spec fn event_emits(self, event: InputEvent, device: int, s: Set<KeyId>) -> Seq<
        KeyTransition,
    > {
        if 0 <= device < self.controllers@.len() {
            self.controllers@[device].event_emits(event, s)
        } else {
            Seq::empty()
        }
    }

    /// Dispatch one discrete event to the mapping of the device it is tagged
    /// with. An event for an unconfigured device is silently ignored.
    pub fn handle_event(
        &self,
        event: InputEvent,
        key_state: &mut KeyLedger,
        gamepad_idx: usize,
        out: &mut Vec<KeyTransition>,
    )
        requires
            self.wf(),
            old(key_state).wf(),
        ensures
            final(key_state).wf(),
            final(key_state)@ == self.event_effect(event, gamepad_idx as int, old(key_state)@),
            final(out)@ == old(out)@ + self.event_emits(
                event,
                gamepad_idx as int,
                old(key_state)@,
            ),
    {
        if gamepad_idx < self.controllers.len() {
            let mapping = &self.controllers[gamepad_idx];
            mapping.handle_event(event, key_state, out);
        } else {
            proof {
                assert(out@ =~= out@ + Seq::<KeyTransition>::empty());
            }
        }
    }
}

} // verus!
