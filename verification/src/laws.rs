//! The guarantees of the engine, stated and proved as laws.
//!
//! The idempotence of the ledger, the boundary behaviour of the dead zone,
//! the isolation of device mappings, and the equivalence of the two dispatch
//! modes on axis changes are proved here over the same spec functions that
//! the executable functions' contracts use.

use vstd::prelude::*;

use crate::ids::{AxisId, KeyId, KeyTransition};
use crate::ledger::{press_effect, press_emits, release_effect, release_emits};
use crate::mapping::{axes_event_effect, axes_event_emits, Config, InputEvent};
use crate::rules::AxisCfg;
use crate::snapshot::{
    axes_snapshot_effect, axes_snapshot_emits, axis_value_in, AxisSample,
};

verus! {

/// Pressing a key twice in a row emits exactly one key-down: the second
/// press finds the key already down, changes nothing and emits nothing.
pub proof fn lemma_press_once_idempotent(s: Set<KeyId>, k: KeyId)
    ensures
        press_effect(press_effect(s, k), k) == press_effect(s, k),
        press_emits(press_effect(s, k), k) == Seq::<KeyTransition>::empty(),
        !s.contains(k) ==> press_emits(s, k) + press_emits(press_effect(s, k), k) == seq![
            KeyTransition::Press(k),
        ],
        s.contains(k) ==> press_emits(s, k) + press_emits(press_effect(s, k), k) == Seq::<
            KeyTransition,
        >::empty(),
{
    assert(press_effect(press_effect(s, k), k) =~= press_effect(s, k));
    if !s.contains(k) {
        assert(press_emits(s, k) + press_emits(press_effect(s, k), k) =~= seq![
            KeyTransition::Press(k),
        ]);
    } else {
        assert(press_emits(s, k) + press_emits(press_effect(s, k), k) =~= Seq::<
            KeyTransition,
        >::empty());
    }
}

/// Releasing a key twice in a row emits exactly one key-up, or none at all
/// when the key was never down: the second release finds the key already up.
pub proof fn lemma_release_once_idempotent(s: Set<KeyId>, k: KeyId)
    ensures
        release_effect(release_effect(s, k), k) == release_effect(s, k),
        release_emits(release_effect(s, k), k) == Seq::<KeyTransition>::empty(),
        s.contains(k) ==> release_emits(s, k) + release_emits(release_effect(s, k), k) == seq![
            KeyTransition::Release(k),
        ],
        !s.contains(k) ==> release_emits(s, k) + release_emits(release_effect(s, k), k) == Seq::<
            KeyTransition,
        >::empty(),
{
    assert(release_effect(release_effect(s, k), k) =~= release_effect(s, k));
    if s.contains(k) {
        assert(release_emits(s, k) + release_emits(release_effect(s, k), k) =~= seq![
            KeyTransition::Release(k),
        ]);
    } else {
        assert(release_emits(s, k) + release_emits(release_effect(s, k), k) =~= Seq::<
            KeyTransition,
        >::empty());
    }
}

/// An axis value exactly at the threshold, on either side, falls in the dead
/// zone: the rule releases both keys and presses neither.
pub proof fn lemma_dead_zone_boundary(cfg: AxisCfg, value: int, s: Set<KeyId>)
    requires
        cfg.wf(),
        value == cfg.threshold || value == -cfg.threshold,
    ensures
        cfg.apply_effect(value, s) == release_effect(release_effect(s, cfg.low_key), cfg.high_key),
        cfg.apply_emits(value, s) == release_emits(s, cfg.low_key) + release_emits(
            release_effect(s, cfg.low_key),
            cfg.high_key,
        ),
        !cfg.apply_effect(value, s).contains(cfg.low_key),
        !cfg.apply_effect(value, s).contains(cfg.high_key),
{
}

/// A mapping table whose only mapping serves device 0 never emits a key
/// transition, nor touches the ledger, for an event tagged with any other
/// device id.
pub proof fn lemma_device_isolation(cfg: Config, event: InputEvent, device: int, s: Set<KeyId>)
    requires
        cfg.controllers@.len() == 1,
        device != 0,
    ensures
        cfg.event_effect(event, device, s) == s,
        cfg.event_emits(event, device, s) == Seq::<KeyTransition>::empty(),
{
}

/// Whether an axis rule asserts key `k` in some branch.
pub open spec fn uses_key(cfg: AxisCfg, k: KeyId) -> bool {
    k == cfg.low_key || k == cfg.high_key
}

/// The ledger already reflects `value` for this rule: the directional key of
/// the active branch is down, or, inside the dead zone, both keys are up.
pub open spec fn axis_settled(cfg: AxisCfg, value: int, s: Set<KeyId>) -> bool {
    if value < -cfg.threshold {
        s.contains(cfg.low_key)
    } else if value > cfg.threshold {
        s.contains(cfg.high_key)
    } else {
        !s.contains(cfg.low_key) && !s.contains(cfg.high_key)
    }
}

/// No two distinct axis rules share a key.
pub open spec fn axes_keys_disjoint(axes: Seq<AxisCfg>) -> bool {
    forall|i: int, j: int|
        #![trigger axes[i], axes[j]]
        0 <= i < axes.len() && 0 <= j < axes.len() && i != j ==> !uses_key(axes[i], axes[j].low_key)
            && !uses_key(axes[i], axes[j].high_key)
}

/// Every axis rule is settled for the value the samples report for its axis.
pub open spec fn axes_settled(axes: Seq<AxisCfg>, vals: Seq<AxisSample>, s: Set<KeyId>) -> bool {
    forall|i: int|
        0 <= i < axes.len() ==> axis_settled(
            #[trigger] axes[i],
            axis_value_in(vals, axes[i].axis),
            s,
        )
}

/// A fresh ledger with every axis centered is settled for every well-formed
/// rule: value 0 lies in every dead zone and no key is down. This is the
/// state in which a run begins, so the mode-equivalence law below applies to
/// whole runs from startup.
pub proof fn lemma_initial_state_settled(axes: Seq<AxisCfg>)
    requires
        forall|i: int| 0 <= i < axes.len() ==> (#[trigger] axes[i]).wf(),
    ensures
        axes_settled(axes, Seq::empty(), Set::empty()),
{
}

/// Re-evaluating a rule at a value the ledger is already settled for changes
/// nothing and emits nothing.
pub proof fn lemma_settled_no_op(cfg: AxisCfg, value: int, s: Set<KeyId>)
    requires
        axis_settled(cfg, value, s),
    ensures
        cfg.apply_effect(value, s) == s,
        cfg.apply_emits(value, s) == Seq::<KeyTransition>::empty(),
{
    if value < -cfg.threshold {
        assert(cfg.apply_effect(value, s) =~= s);
    } else if value > cfg.threshold {
        assert(cfg.apply_effect(value, s) =~= s);
    } else {
        assert(release_effect(s, cfg.low_key) =~= s);
        assert(cfg.apply_effect(value, s) =~= s);
        assert(cfg.apply_emits(value, s) =~= Seq::<KeyTransition>::empty());
    }
}

/// Evaluating a rule settles the ledger for the value it saw.
pub proof fn lemma_apply_settles(cfg: AxisCfg, value: int, s: Set<KeyId>)
    ensures
        axis_settled(cfg, value, cfg.apply_effect(value, s)),
{
}

/// Evaluating a rule touches no key besides its own pair.
pub proof fn lemma_apply_preserves_other_keys(cfg: AxisCfg, value: int, s: Set<KeyId>, k: KeyId)
    requires
        !uses_key(cfg, k),
    ensures
        cfg.apply_effect(value, s).contains(k) == s.contains(k),
{
}

/// A discrete axis event run through a rule list touches no key outside the
/// rules' own pairs.
pub proof fn lemma_axes_effect_preserves_key(
    axes: Seq<AxisCfg>,
    axis: AxisId,
    value: int,
    s: Set<KeyId>,
    k: KeyId,
)
    requires
        forall|i: int| 0 <= i < axes.len() ==> !uses_key(#[trigger] axes[i], k),
    ensures
        axes_event_effect(axes, axis, value, s).contains(k) == s.contains(k),
    decreases axes.len(),
{
    if axes.len() == 0 {
    } else {
        let h = axes[0];
        assert(!uses_key(h, k));
        if axis == h.axis {
            lemma_apply_preserves_other_keys(h, value, s, k);
        }
        let tail = axes.drop_first();
        assert forall|i: int| 0 <= i < tail.len() implies !uses_key(#[trigger] tail[i], k) by {
            assert(tail[i] == axes[i + 1]);
        }
        lemma_axes_effect_preserves_key(tail, axis, value, h.event_effect(axis, value, s), k);
    }
}

/// One physical axis change, dispatched either as a discrete event or as a
/// re-evaluation of the full new state, drives the ledger to the same state
/// and emits the same transitions, and leaves every rule settled for the new
/// state. Requires key-disjoint rules and a ledger settled for the old state.
pub proof fn lemma_axis_mode_step(
    axes: Seq<AxisCfg>,
    old_vals: Seq<AxisSample>,
    new_vals: Seq<AxisSample>,
    axis: AxisId,
    value: int,
    s: Set<KeyId>,
)
    requires
        axes_keys_disjoint(axes),
        axes_settled(axes, old_vals, s),
        axis_value_in(new_vals, axis) == value,
        forall|a: AxisId| a != axis ==> axis_value_in(new_vals, a) == axis_value_in(old_vals, a),
    ensures
        axes_snapshot_effect(axes, new_vals, s) == axes_event_effect(axes, axis, value, s),
        axes_snapshot_emits(axes, new_vals, s) == axes_event_emits(axes, axis, value, s),
        axes_settled(axes, new_vals, axes_event_effect(axes, axis, value, s)),
    decreases axes.len(),
{
    if axes.len() == 0 {
        assert(axes_settled(axes, new_vals, s));
    } else {
        let h = axes[0];
        let tail = axes.drop_first();
        let v0 = axis_value_in(new_vals, h.axis);
        let s1 = h.event_effect(axis, value, s);
        if h.axis == axis {
            assert(v0 == value);
        } else {
            assert(axis_settled(h, axis_value_in(old_vals, h.axis), s));
            assert(v0 == axis_value_in(old_vals, h.axis));
            lemma_settled_no_op(h, v0, s);
        }
        assert(h.apply_effect(v0, s) == s1);
        assert(h.apply_emits(v0, s) == h.event_emits(axis, value, s));
        assert forall|i: int, j: int|
            #![trigger tail[i], tail[j]]
            0 <= i < tail.len() && 0 <= j < tail.len() && i != j implies !uses_key(
            tail[i],
            tail[j].low_key,
        ) && !uses_key(tail[i], tail[j].high_key) by {
            assert(tail[i] == axes[i + 1] && tail[j] == axes[j + 1]);
        }
        assert forall|i: int|
            0 <= i < tail.len() implies axis_settled(
            #[trigger] tail[i],
            axis_value_in(old_vals, tail[i].axis),
            s1,
        ) by {
            assert(tail[i] == axes[i + 1]);
            assert(axis_settled(axes[i + 1], axis_value_in(old_vals, axes[i + 1].axis), s));
            assert(!uses_key(h, axes[i + 1].low_key) && !uses_key(h, axes[i + 1].high_key));
            if h.axis == axis {
                lemma_apply_preserves_other_keys(h, value, s, axes[i + 1].low_key);
                lemma_apply_preserves_other_keys(h, value, s, axes[i + 1].high_key);
            }
        }
        lemma_axis_mode_step(tail, old_vals, new_vals, axis, value, s1);
        let fin = axes_event_effect(tail, axis, value, s1);
        assert(axes_event_effect(axes, axis, value, s) == fin);
        assert(axes_snapshot_effect(axes, new_vals, s) == axes_snapshot_effect(tail, new_vals, s1));
        assert(axes_snapshot_emits(axes, new_vals, s) == h.apply_emits(v0, s)
            + axes_snapshot_emits(tail, new_vals, s1));
        assert(axes_event_emits(axes, axis, value, s) == h.event_emits(axis, value, s)
            + axes_event_emits(tail, axis, value, s1));
        // The head rule is settled for its new value, and the tail touches
        // none of its keys.
        if h.axis == axis {
            lemma_apply_settles(h, value, s);
        }
        assert(axis_settled(h, v0, s1));
        assert forall|i: int| 0 <= i < tail.len() implies !uses_key(
            #[trigger] tail[i],
            h.low_key,
        ) by {
            assert(tail[i] == axes[i + 1]);
            assert(!uses_key(axes[i + 1], axes[0].low_key));
        }
        assert forall|i: int| 0 <= i < tail.len() implies !uses_key(
            #[trigger] tail[i],
            h.high_key,
        ) by {
            assert(tail[i] == axes[i + 1]);
            assert(!uses_key(axes[i + 1], axes[0].high_key));
        }
        lemma_axes_effect_preserves_key(tail, axis, value, s1, h.low_key);
        lemma_axes_effect_preserves_key(tail, axis, value, s1, h.high_key);
        assert(axis_settled(h, v0, fin));
        assert forall|i: int|
            0 <= i < axes.len() implies axis_settled(
            #[trigger] axes[i],
            axis_value_in(new_vals, axes[i].axis),
            fin,
        ) by {
            if i == 0 {
                assert(axes[0] == h);
            } else {
                assert(tail[i - 1] == axes[i]);
                assert(axis_settled(tail[i - 1], axis_value_in(new_vals, tail[i - 1].axis), fin));
            }
        }
    }
}

/// The sample list after one physical change: the new sample shadows any
/// older sample for the same axis.
pub open spec fn updated_vals(vals: Seq<AxisSample>, change: AxisSample) -> Seq<AxisSample> {
    seq![change] + vals
}

/// An updated sample list reports the changed axis's new value and leaves
/// every other axis's value as it was.
pub proof fn lemma_updated_vals(vals: Seq<AxisSample>, change: AxisSample)
    ensures
        axis_value_in(updated_vals(vals, change), change.axis) == change.value as int,
        forall|a: AxisId|
            a != change.axis ==> axis_value_in(updated_vals(vals, change), a) == axis_value_in(
                vals,
                a,
            ),
{
    assert(updated_vals(vals, change)[0] == change);
    assert(updated_vals(vals, change).drop_first() =~= vals);
}

/// The ledger state after a sequence of physical axis changes, each
/// dispatched as a discrete event.
pub open spec fn run_discrete_effect(
    axes: Seq<AxisCfg>,
    changes: Seq<AxisSample>,
    s: Set<KeyId>,
) -> Set<KeyId>
    decreases changes.len(),
{
    if changes.len() == 0 {
        s
    } else {
        run_discrete_effect(
            axes,
            changes.drop_first(),
            axes_event_effect(axes, changes[0].axis, changes[0].value as int, s),
        )
    }
}

/// The transitions emitted by a sequence of physical axis changes, each
/// dispatched as a discrete event.
pub open spec fn run_discrete_emits(
    axes: Seq<AxisCfg>,
    changes: Seq<AxisSample>,
    s: Set<KeyId>,
) -> Seq<KeyTransition>
    decreases changes.len(),
{
    if changes.len() == 0 {
        Seq::empty()
    } else {
        axes_event_emits(axes, changes[0].axis, changes[0].value as int, s) + run_discrete_emits(
            axes,
            changes.drop_first(),
            axes_event_effect(axes, changes[0].axis, changes[0].value as int, s),
        )
    }
}

/// The ledger state after a sequence of physical axis changes, the full new
/// state re-evaluated after each change (snapshot mode).
pub open spec fn run_snapshot_effect(
    axes: Seq<AxisCfg>,
    vals: Seq<AxisSample>,
    changes: Seq<AxisSample>,
    s: Set<KeyId>,
) -> Set<KeyId>
    decreases changes.len(),
{
    if changes.len() == 0 {
        s
    } else {
        run_snapshot_effect(
            axes,
            updated_vals(vals, changes[0]),
            changes.drop_first(),
            axes_snapshot_effect(axes, updated_vals(vals, changes[0]), s),
        )
    }
}

/// The transitions emitted by a sequence of physical axis changes, the full
/// new state re-evaluated after each change (snapshot mode).
pub open spec fn run_snapshot_emits(
    axes: Seq<AxisCfg>,
    vals: Seq<AxisSample>,
    changes: Seq<AxisSample>,
    s: Set<KeyId>,
) -> Seq<KeyTransition>
    decreases changes.len(),
{
    if changes.len() == 0 {
        Seq::empty()
    } else {
        axes_snapshot_emits(axes, updated_vals(vals, changes[0]), s) + run_snapshot_emits(
            axes,
            updated_vals(vals, changes[0]),
            changes.drop_first(),
            axes_snapshot_effect(axes, updated_vals(vals, changes[0]), s),
        )
    }
}

/// Mode equivalence on axis changes: for key-disjoint axis rules and a ledger
/// settled for the starting state, a sequence of physical axis changes drives
/// the ledger to the same final state and emits the same transitions, in the
/// same order, whether each change is dispatched as a discrete event or the
/// full state is re-evaluated after each change.
pub proof fn lemma_mode_equivalence(
    axes: Seq<AxisCfg>,
    vals: Seq<AxisSample>,
    changes: Seq<AxisSample>,
    s: Set<KeyId>,
)
    requires
        axes_keys_disjoint(axes),
        axes_settled(axes, vals, s),
    ensures
        run_snapshot_effect(axes, vals, changes, s) == run_discrete_effect(axes, changes, s),
        run_snapshot_emits(axes, vals, changes, s) == run_discrete_emits(axes, changes, s),
    decreases changes.len(),
{
    if changes.len() == 0 {
    } else {
        let c = changes[0];
        let nv = updated_vals(vals, c);
        lemma_updated_vals(vals, c);
        lemma_axis_mode_step(axes, vals, nv, c.axis, c.value as int, s);
        let s1 = axes_event_effect(axes, c.axis, c.value as int, s);
        lemma_mode_equivalence(axes, nv, changes.drop_first(), s1);
    }
}

} // verus!
