//! Snapshot-mode dispatch: re-evaluating every rule against a full reading of
//! a device's current state.
//!
//! A `DeviceSnapshot` carries the current value of each reported axis and
//! button; an axis or button the device did not report counts as value 0,
//! which lies in every dead zone. Evaluation runs every axis rule and then
//! every button rule of the device's mapping, in configuration order, through
//! the ledger, so re-evaluating an unchanged state emits nothing. Buttons
//! follow the value-based strategy here: intensity above `HALF_UNIT` presses,
//! anything else releases, both idempotently.

use vstd::prelude::*;

use crate::ids::{AxisId, ButtonId, KeyId, KeyTransition};
use crate::ledger::KeyLedger;
use crate::mapping::{Config, ControllerCfg};
use crate::rules::{AxisCfg, ButtonCfg};

verus! {

/// The reported value of one axis.
#[derive(Clone, Copy, PartialEq, Eq, Structural, Debug)]
pub struct AxisSample {
    pub axis: AxisId,
    pub value: i32,
}

/// The reported intensity of one button.
#[derive(Clone, Copy, PartialEq, Eq, Structural, Debug)]
pub struct ButtonSample {
    pub button: ButtonId,
    pub value: i32,
}

/// The full current state of one device.
#[derive(Debug)]
pub struct DeviceSnapshot {
    pub axes: Vec<AxisSample>,
    pub buttons: Vec<ButtonSample>,
}

/// The value reported for axis `a`: the first sample for it, or 0 when the
/// device did not report it.
pub open spec fn axis_value_in(samples: Seq<AxisSample>, a: AxisId) -> int
    decreases samples.len(),
{
    if samples.len() == 0 {
        0
    } else if samples[0].axis == a {
        samples[0].value as int
    } else {
        axis_value_in(samples.drop_first(), a)
    }
}

/// The intensity reported for button `b`: the first sample for it, or 0 when
/// the device did not report it.
pub open spec fn button_value_in(samples: Seq<ButtonSample>, b: ButtonId) -> int
    decreases samples.len(),
{
    if samples.len() == 0 {
        0
    } else if samples[0].button == b {
        samples[0].value as int
    } else {
        button_value_in(samples.drop_first(), b)
    }
}

/// The ledger state after every axis rule is re-evaluated against the
/// snapshot values, in configuration order.
pub open spec fn axes_snapshot_effect(
    axes: Seq<AxisCfg>,
    vals: Seq<AxisSample>,
    s: Set<KeyId>,
) -> Set<KeyId>
    decreases axes.len(),
{
    if axes.len() == 0 {
        s
    } else {
        axes_snapshot_effect(
            axes.drop_first(),
            vals,
            axes[0].apply_effect(axis_value_in(vals, axes[0].axis), s),
        )
    }
}

/// The transitions emitted when every axis rule is re-evaluated against the
/// snapshot values.
pub open spec fn axes_snapshot_emits(
    axes: Seq<AxisCfg>,
    vals: Seq<AxisSample>,
    s: Set<KeyId>,
) -> Seq<KeyTransition>
    decreases axes.len(),
{
    if axes.len() == 0 {
        Seq::empty()
    } else {
        axes[0].apply_emits(axis_value_in(vals, axes[0].axis), s) + axes_snapshot_emits(
            axes.drop_first(),
            vals,
            axes[0].apply_effect(axis_value_in(vals, axes[0].axis), s),
        )
    }
}

/// The ledger state after every button rule is re-evaluated against the
/// snapshot values, in configuration order.
pub open spec fn buttons_snapshot_effect(
    buttons: Seq<ButtonCfg>,
    vals: Seq<ButtonSample>,
    s: Set<KeyId>,
) -> Set<KeyId>
    decreases buttons.len(),
{
    if buttons.len() == 0 {
        s
    } else {
        buttons_snapshot_effect(
            buttons.drop_first(),
            vals,
            buttons[0].apply_effect(button_value_in(vals, buttons[0].button), s),
        )
    }
}

/// The transitions emitted when every button rule is re-evaluated against the
/// snapshot values.
pub open spec fn buttons_snapshot_emits(
    buttons: Seq<ButtonCfg>,
    vals: Seq<ButtonSample>,
    s: Set<KeyId>,
) -> Seq<KeyTransition>
    decreases buttons.len(),
{
    if buttons.len() == 0 {
        Seq::empty()
    } else {
        buttons[0].apply_emits(button_value_in(vals, buttons[0].button), s)
            + buttons_snapshot_emits(
            buttons.drop_first(),
            vals,
            buttons[0].apply_effect(button_value_in(vals, buttons[0].button), s),
        )
    }
}

/// One step of the axis snapshot fold, seen from position `i`.
pub proof fn lemma_axes_snapshot_unfold(
    axes: Seq<AxisCfg>,
    i: int,
    vals: Seq<AxisSample>,
    s: Set<KeyId>,
)
    requires
        0 <= i < axes.len(),
    ensures
        axes_snapshot_effect(axes.skip(i), vals, s) == axes_snapshot_effect(
            axes.skip(i + 1),
            vals,
            axes[i].apply_effect(axis_value_in(vals, axes[i].axis), s),
        ),
        axes_snapshot_emits(axes.skip(i), vals, s) == axes[i].apply_emits(
            axis_value_in(vals, axes[i].axis),
            s,
        ) + axes_snapshot_emits(
            axes.skip(i + 1),
            vals,
            axes[i].apply_effect(axis_value_in(vals, axes[i].axis), s),
        ),
{
    assert(axes.skip(i)[0] == axes[i]);
    assert(axes.skip(i).drop_first() =~= axes.skip(i + 1));
}

/// One step of the button snapshot fold, seen from position `i`.
pub proof fn lemma_buttons_snapshot_unfold(
    buttons: Seq<ButtonCfg>,
    i: int,
    vals: Seq<ButtonSample>,
    s: Set<KeyId>,
)
    requires
        0 <= i < buttons.len(),
    ensures
        buttons_snapshot_effect(buttons.skip(i), vals, s) == buttons_snapshot_effect(
            buttons.skip(i + 1),
            vals,
            buttons[i].apply_effect(button_value_in(vals, buttons[i].button), s),
        ),
        buttons_snapshot_emits(buttons.skip(i), vals, s) == buttons[i].apply_emits(
            button_value_in(vals, buttons[i].button),
            s,
        ) + buttons_snapshot_emits(
            buttons.skip(i + 1),
            vals,
            buttons[i].apply_effect(button_value_in(vals, buttons[i].button), s),
        ),
{
    assert(buttons.skip(i)[0] == buttons[i]);
    assert(buttons.skip(i).drop_first() =~= buttons.skip(i + 1));
}

impl DeviceSnapshot {
    /// The value this snapshot reports for axis `a`, 0 when unreported.
    pub fn axis_value(&self, a: AxisId) -> (r: i32)
        ensures
            r as int == axis_value_in(self.axes@, a),
    {
        let n = self.axes.len();
        let mut i: usize = 0;
        proof {
            assert(self.axes@.skip(0) =~= self.axes@);
        }
        while i < n
            invariant
                i <= n,
                n == self.axes@.len(),
                axis_value_in(self.axes@, a) == axis_value_in(self.axes@.skip(i as int), a),
            decreases n - i,
        {
            proof {
                assert(self.axes@.skip(i as int)[0] == self.axes@[i as int]);
                assert(self.axes@.skip(i as int).drop_first() =~= self.axes@.skip(i as int + 1));
            }
            if self.axes[i].axis == a {
                return self.axes[i].value;
            }
            i += 1;
        }
        0
    }

    /// The intensity this snapshot reports for button `b`, 0 when unreported.
    pub fn button_value(&self, b: ButtonId) -> (r: i32)
        ensures
            r as int == button_value_in(self.buttons@, b),
    {
        let n = self.buttons.len();
        let mut i: usize = 0;
        proof {
            assert(self.buttons@.skip(0) =~= self.buttons@);
        }
        while i < n
            invariant
                i <= n,
                n == self.buttons@.len(),
                button_value_in(self.buttons@, b) == button_value_in(
                    self.buttons@.skip(i as int),
                    b,
                ),
            decreases n - i,
        {
            proof {
                assert(self.buttons@.skip(i as int)[0] == self.buttons@[i as int]);
                assert(self.buttons@.skip(i as int).drop_first() =~= self.buttons@.skip(
                    i as int + 1,
                ));
            }
            if self.buttons[i].button == b {
                return self.buttons[i].value;
            }
            i += 1;
        }
        0
    }
}

impl ControllerCfg {
    /// The ledger state after this mapping is re-evaluated against a full
    /// snapshot: all axis rules, then all button rules.
    pub open spec fn snapshot_effect(self, snap: DeviceSnapshot, s: Set<KeyId>) -> Set<KeyId> {
        buttons_snapshot_effect(
            self.buttons@,
            snap.buttons@,
            axes_snapshot_effect(self.axes@, snap.axes@, s),
        )
    }

    /// The transitions emitted when this mapping is re-evaluated against a
    /// full snapshot.
    pub open spec fn snapshot_emits(self, snap: DeviceSnapshot, s: Set<KeyId>) -> Seq<
        KeyTransition,
    > {
        axes_snapshot_emits(self.axes@, snap.axes@, s) + buttons_snapshot_emits(
            self.buttons@,
            snap.buttons@,
            axes_snapshot_effect(self.axes@, snap.axes@, s),
        )
    }

    /// Re-evaluate every rule of this mapping against a full snapshot of its
    /// device's state.
    pub fn handle_snapshot(
        &self,
        snap: &DeviceSnapshot,
        key_state: &mut KeyLedger,
        out: &mut Vec<KeyTransition>,
    )
        requires
            self.wf(),
            old(key_state).wf(),
        ensures
            final(key_state).wf(),
            final(key_state)@ == self.snapshot_effect(*snap, old(key_state)@),
            final(out)@ == old(out)@ + self.snapshot_emits(*snap, old(key_state)@),
    {
        let ghost s0 = key_state@;
        let ghost o0 = out@;
        let n = self.axes.len();
        let mut i: usize = 0;
        proof {
            assert(self.axes@.skip(0) =~= self.axes@);
        }
        while i < n
            invariant
                i <= n,
                n == self.axes@.len(),
                self.wf(),
                key_state.wf(),
                s0 == old(key_state)@,
                o0 == old(out)@,
                axes_snapshot_effect(self.axes@, snap.axes@, s0) == axes_snapshot_effect(
                    self.axes@.skip(i as int),
                    snap.axes@,
                    key_state@,
                ),
                o0 + axes_snapshot_emits(self.axes@, snap.axes@, s0) == out@ + axes_snapshot_emits(
                    self.axes@.skip(i as int),
                    snap.axes@,
                    key_state@,
                ),
            decreases n - i,
        {
            let cfg = self.axes[i];
            let value = snap.axis_value(cfg.axis);
            let ghost si = key_state@;
            let ghost oi = out@;
            cfg.apply_value(value, key_state, out);
            proof {
                lemma_axes_snapshot_unfold(self.axes@, i as int, snap.axes@, si);
                assert(oi + (cfg.apply_emits(value as int, si) + axes_snapshot_emits(
                    self.axes@.skip(i as int + 1),
                    snap.axes@,
                    key_state@,
                )) =~= out@ + axes_snapshot_emits(
                    self.axes@.skip(i as int + 1),
                    snap.axes@,
                    key_state@,
                ));
            }
            i += 1;
        }
        proof {
            assert(axes_snapshot_emits(self.axes@.skip(n as int), snap.axes@, key_state@)
                =~= Seq::<KeyTransition>::empty());
            assert(out@ =~= out@ + Seq::<KeyTransition>::empty());
        }
        let ghost s1 = key_state@;
        let ghost o1 = out@;
        let m = self.buttons.len();
        let mut j: usize = 0;
        proof {
            assert(self.buttons@.skip(0) =~= self.buttons@);
        }
        while j < m
            invariant
                j <= m,
                m == self.buttons@.len(),
                key_state.wf(),
                s1 == axes_snapshot_effect(self.axes@, snap.axes@, s0),
                o1 == o0 + axes_snapshot_emits(self.axes@, snap.axes@, s0),
                s0 == old(key_state)@,
                o0 == old(out)@,
                buttons_snapshot_effect(self.buttons@, snap.buttons@, s1)
                    == buttons_snapshot_effect(
                    self.buttons@.skip(j as int),
                    snap.buttons@,
                    key_state@,
                ),
                o1 + buttons_snapshot_emits(self.buttons@, snap.buttons@, s1) == out@
                    + buttons_snapshot_emits(
                    self.buttons@.skip(j as int),
                    snap.buttons@,
                    key_state@,
                ),
            decreases m - j,
        {
            let cfg = self.buttons[j];
            let value = snap.button_value(cfg.button);
            let ghost sj = key_state@;
            let ghost oj = out@;
            cfg.apply_value(value, key_state, out);
            proof {
                lemma_buttons_snapshot_unfold(self.buttons@, j as int, snap.buttons@, sj);
                assert(oj + (cfg.apply_emits(value as int, sj) + buttons_snapshot_emits(
                    self.buttons@.skip(j as int + 1),
                    snap.buttons@,
                    key_state@,
                )) =~= out@ + buttons_snapshot_emits(
                    self.buttons@.skip(j as int + 1),
                    snap.buttons@,
                    key_state@,
                ));
            }
            j += 1;
        }
        proof {
            assert(buttons_snapshot_emits(self.buttons@.skip(m as int), snap.buttons@, key_state@)
                =~= Seq::<KeyTransition>::empty());
            assert(out@ =~= out@ + Seq::<KeyTransition>::empty());
            assert(out@ =~= o0 + (axes_snapshot_emits(self.axes@, snap.axes@, s0)
                + buttons_snapshot_emits(self.buttons@, snap.buttons@, s1)));
        }
    }
}

/// The ledger state after each mapping in the table is re-evaluated against
/// the snapshot of its device: the `n`-th mapping against the `n`-th
/// snapshot. Mappings beyond the snapshots (unconnected devices) are skipped.
pub open spec fn table_snapshot_effect(
    ctrls: Seq<ControllerCfg>,
    snaps: Seq<DeviceSnapshot>,
    s: Set<KeyId>,
) -> Set<KeyId>
    decreases ctrls.len(),
{
    if ctrls.len() == 0 || snaps.len() == 0 {
        s
    } else {
        table_snapshot_effect(
            ctrls.drop_first(),
            snaps.drop_first(),
            ctrls[0].snapshot_effect(snaps[0], s),
        )
    }
}

/// The transitions emitted when each mapping in the table is re-evaluated
/// against the snapshot of its device.
pub open spec fn table_snapshot_emits(
    ctrls: Seq<ControllerCfg>,
    snaps: Seq<DeviceSnapshot>,
    s: Set<KeyId>,
) -> Seq<KeyTransition>
    decreases ctrls.len(),
{
    if ctrls.len() == 0 || snaps.len() == 0 {
        Seq::empty()
    } else {
        ctrls[0].snapshot_emits(snaps[0], s) + table_snapshot_emits(
            ctrls.drop_first(),
            snaps.drop_first(),
            ctrls[0].snapshot_effect(snaps[0], s),
        )
    }
}

/// One step of the table snapshot fold, seen from position `i`.
pub proof fn lemma_table_snapshot_unfold(
    ctrls: Seq<ControllerCfg>,
    snaps: Seq<DeviceSnapshot>,
    i: int,
    s: Set<KeyId>,
)
    requires
        0 <= i < ctrls.len(),
        i < snaps.len(),
    ensures
        table_snapshot_effect(ctrls.skip(i), snaps.skip(i), s) == table_snapshot_effect(
            ctrls.skip(i + 1),
            snaps.skip(i + 1),
            ctrls[i].snapshot_effect(snaps[i], s),
        ),
        table_snapshot_emits(ctrls.skip(i), snaps.skip(i), s) == ctrls[i].snapshot_emits(
            snaps[i],
            s,
        ) + table_snapshot_emits(
            ctrls.skip(i + 1),
            snaps.skip(i + 1),
            ctrls[i].snapshot_effect(snaps[i], s),
        ),
{
    assert(ctrls.skip(i)[0] == ctrls[i]);
    assert(snaps.skip(i)[0] == snaps[i]);
    assert(ctrls.skip(i).drop_first() =~= ctrls.skip(i + 1));
    assert(snaps.skip(i).drop_first() =~= snaps.skip(i + 1));
}

impl Config {
    /// The ledger state after a full rescan of all connected devices.
    pub open spec fn snapshot_effect(self, snaps: Seq<DeviceSnapshot>, s: Set<KeyId>) -> Set<
        KeyId,
    > {
        table_snapshot_effect(self.controllers@, snaps, s)
    }

    /// The transitions emitted by a full rescan of all connected devices.
    pub open spec fn snapshot_emits(self, snaps: Seq<DeviceSnapshot>, s: Set<KeyId>) -> Seq<
        KeyTransition,
    > {
        table_snapshot_emits(self.controllers@, snaps, s)
    }

    /// Re-evaluate the whole table against fresh snapshots of all connected
    /// devices, the `n`-th mapping against the `n`-th device's snapshot.
    pub fn handle_snapshot(
        &self,
        snaps: &Vec<DeviceSnapshot>,
        key_state: &mut KeyLedger,
        out: &mut Vec<KeyTransition>,
    )
        requires
            self.wf(),
            old(key_state).wf(),
        ensures
            final(key_state).wf(),
            final(key_state)@ == self.snapshot_effect(snaps@, old(key_state)@),
            final(out)@ == old(out)@ + self.snapshot_emits(snaps@, old(key_state)@),
    {
        let ghost s0 = key_state@;
        let ghost o0 = out@;
        let n = self.controllers.len();
        let mut i: usize = 0;
        proof {
            assert(self.controllers@.skip(0) =~= self.controllers@);
            assert(snaps@.skip(0) =~= snaps@);
        }
        while i < n
            invariant
                i <= n,
                n == self.controllers@.len(),
                self.wf(),
                key_state.wf(),
                s0 == old(key_state)@,
                o0 == old(out)@,
                i <= snaps@.len(),
                table_snapshot_effect(self.controllers@, snaps@, s0) == table_snapshot_effect(
                    self.controllers@.skip(i as int),
                    snaps@.skip(i as int),
                    key_state@,
                ),
                o0 + table_snapshot_emits(self.controllers@, snaps@, s0) == out@
                    + table_snapshot_emits(
                    self.controllers@.skip(i as int),
                    snaps@.skip(i as int),
                    key_state@,
                ),
            decreases n - i,
        {
            if i >= snaps.len() {
                proof {
                    assert(snaps@.skip(i as int).len() == 0);
                    assert(out@ =~= out@ + Seq::<KeyTransition>::empty());
                }
                return ;
            }
            let mapping = &self.controllers[i];
            let snap = &snaps[i];
            let ghost si = key_state@;
            let ghost oi = out@;
            mapping.handle_snapshot(snap, key_state, out);
            proof {
                lemma_table_snapshot_unfold(self.controllers@, snaps@, i as int, si);
                assert(oi + (self.controllers@[i as int].snapshot_emits(snaps@[i as int], si)
                    + table_snapshot_emits(
                    self.controllers@.skip(i as int + 1),
                    snaps@.skip(i as int + 1),
                    key_state@,
                )) =~= out@ + table_snapshot_emits(
                    self.controllers@.skip(i as int + 1),
                    snaps@.skip(i as int + 1),
                    key_state@,
                ));
            }
            i += 1;
        }
        proof {
            assert(self.controllers@.skip(n as int).len() == 0);
            assert(table_snapshot_emits(
                self.controllers@.skip(n as int),
                snaps@.skip(n as int),
                key_state@,
            ) =~= Seq::<KeyTransition>::empty());
            assert(out@ =~= out@ + Seq::<KeyTransition>::empty());
        }
    }
}

} // verus!
