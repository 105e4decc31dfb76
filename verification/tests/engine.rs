//! End-to-end behaviour of the key-state engine through its public surface.

use padkeys::ids::{AxisId, ButtonId, KeyId, KeyTransition, HALF_UNIT};
use padkeys::ledger::{key_press_once, key_release_once, KeyLedger};
use padkeys::mapping::{Config, ControllerCfg, InputEvent};
use padkeys::rules::{AxisCfg, ButtonCfg};
use padkeys::snapshot::{AxisSample, ButtonSample, DeviceSnapshot};

const KEY_A: KeyId = KeyId(30);
const KEY_D: KeyId = KeyId(32);
const KEY_SPACE: KeyId = KeyId(57);
const LEFT_STICK_X: AxisId = AxisId(0);
const SOUTH: ButtonId = ButtonId(0);

fn stick_mapping(threshold: i32) -> Config {
    Config {
        controllers: vec![ControllerCfg {
            axes: vec![AxisCfg {
                axis: LEFT_STICK_X,
                high_key: KEY_D,
                low_key: KEY_A,
                threshold,
            }],
            buttons: vec![],
        }],
    }
}

#[test]
fn press_twice_emits_one_key_down() {
    let mut led = KeyLedger::new();
    let mut out: Vec<KeyTransition> = Vec::new();
    key_press_once(&mut led, KEY_A, &mut out);
    key_press_once(&mut led, KEY_A, &mut out);
    assert_eq!(out, vec![KeyTransition::Press(KEY_A)]);
    assert!(led.is_down(KEY_A));
}

#[test]
fn release_twice_emits_one_key_up() {
    let mut led = KeyLedger::new();
    let mut out: Vec<KeyTransition> = Vec::new();
    key_press_once(&mut led, KEY_A, &mut out);
    out.clear();
    key_release_once(&mut led, KEY_A, &mut out);
    key_release_once(&mut led, KEY_A, &mut out);
    assert_eq!(out, vec![KeyTransition::Release(KEY_A)]);
    assert!(!led.is_down(KEY_A));
}

#[test]
fn release_of_never_pressed_key_emits_nothing() {
    let mut led = KeyLedger::new();
    let mut out: Vec<KeyTransition> = Vec::new();
    key_release_once(&mut led, KEY_A, &mut out);
    key_release_once(&mut led, KEY_A, &mut out);
    assert_eq!(out, Vec::new());
    assert!(!led.is_down(KEY_A));
}

#[test]
fn ledger_tracks_keys_independently() {
    let mut led = KeyLedger::new();
    let mut out: Vec<KeyTransition> = Vec::new();
    key_press_once(&mut led, KEY_A, &mut out);
    key_press_once(&mut led, KEY_D, &mut out);
    key_release_once(&mut led, KEY_A, &mut out);
    assert_eq!(
        out,
        vec![
            KeyTransition::Press(KEY_A),
            KeyTransition::Press(KEY_D),
            KeyTransition::Release(KEY_A),
        ]
    );
    assert!(!led.is_down(KEY_A));
    assert!(led.is_down(KEY_D));
}

#[test]
fn threshold_value_falls_in_dead_zone() {
    let rule = AxisCfg { axis: LEFT_STICK_X, high_key: KEY_D, low_key: KEY_A, threshold: 300 };
    let mut led = KeyLedger::new();
    let mut out: Vec<KeyTransition> = Vec::new();
    rule.apply_value(500, &mut led, &mut out);
    out.clear();
    // Exactly the threshold: dead zone, so the high key is released, not held.
    rule.apply_value(300, &mut led, &mut out);
    assert_eq!(out, vec![KeyTransition::Release(KEY_D)]);
    assert!(!led.is_down(KEY_D));

    let mut led2 = KeyLedger::new();
    let mut out2: Vec<KeyTransition> = Vec::new();
    rule.apply_value(-500, &mut led2, &mut out2);
    out2.clear();
    // Exactly the negated threshold: dead zone as well.
    rule.apply_value(-300, &mut led2, &mut out2);
    assert_eq!(out2, vec![KeyTransition::Release(KEY_A)]);
    assert!(!led2.is_down(KEY_A));
}

#[test]
fn value_just_past_threshold_presses() {
    let rule = AxisCfg { axis: LEFT_STICK_X, high_key: KEY_D, low_key: KEY_A, threshold: 300 };
    let mut led = KeyLedger::new();
    let mut out: Vec<KeyTransition> = Vec::new();
    rule.apply_value(301, &mut led, &mut out);
    assert_eq!(out, vec![KeyTransition::Press(KEY_D)]);
    out.clear();
    rule.apply_value(-301, &mut led, &mut out);
    assert_eq!(out, vec![KeyTransition::Press(KEY_A)]);
}

#[test]
fn axis_event_for_other_axis_is_ignored() {
    let rule = AxisCfg { axis: LEFT_STICK_X, high_key: KEY_D, low_key: KEY_A, threshold: 300 };
    let mut led = KeyLedger::new();
    let mut out: Vec<KeyTransition> = Vec::new();
    rule.handle_event(AxisId(1), 900, &mut led, &mut out);
    assert_eq!(out, Vec::new());
    assert!(!led.is_down(KEY_D));
}

#[test]
fn stick_scenario_emits_minimal_transitions() {
    // LeftStickX on device 0, threshold three tenths, high key D, low key A.
    let config = stick_mapping(300);
    let mut led = KeyLedger::new();

    let step = |config: &Config, led: &mut KeyLedger, value: i32| -> Vec<KeyTransition> {
        let mut emitted: Vec<KeyTransition> = Vec::new();
        config.handle_event(
            InputEvent::AxisChanged { axis: LEFT_STICK_X, value },
            led,
            0,
            &mut emitted,
        );
        emitted
    };

    // Centered: dead zone, nothing was down, nothing emitted.
    assert_eq!(step(&config, &mut led, 0), Vec::new());
    // Pushed high: D goes down.
    assert_eq!(step(&config, &mut led, 500), vec![KeyTransition::Press(KEY_D)]);
    // Repeated reading: no new emission.
    assert_eq!(step(&config, &mut led, 500), Vec::new());
    // Pushed low: A goes down; the high branch leaves D untouched.
    assert_eq!(step(&config, &mut led, -500), vec![KeyTransition::Press(KEY_A)]);
    assert!(led.is_down(KEY_D));
    // Back to the dead zone: both keys end up released.
    assert_eq!(
        step(&config, &mut led, 100),
        vec![KeyTransition::Release(KEY_A), KeyTransition::Release(KEY_D)]
    );
    assert!(!led.is_down(KEY_A));
    assert!(!led.is_down(KEY_D));
}

#[test]
fn device_isolation_other_device_emits_nothing() {
    let config = stick_mapping(300);
    let mut led = KeyLedger::new();
    let mut out: Vec<KeyTransition> = Vec::new();
    // The only mapping serves device 0; events tagged device 1 do nothing.
    config.handle_event(
        InputEvent::AxisChanged { axis: LEFT_STICK_X, value: 900 },
        &mut led,
        1,
        &mut out,
    );
    assert_eq!(out, Vec::new());
    assert!(!led.is_down(KEY_D));
    // The same event tagged device 0 presses the high key.
    config.handle_event(
        InputEvent::AxisChanged { axis: LEFT_STICK_X, value: 900 },
        &mut led,
        0,
        &mut out,
    );
    assert_eq!(out, vec![KeyTransition::Press(KEY_D)]);
}

#[test]
fn discrete_button_events_are_unconditional() {
    // Button South on device 1 mapped to Space, event-based strategy: a
    // duplicated press event is emitted twice, by design.
    let config = Config {
        controllers: vec![
            ControllerCfg { axes: vec![], buttons: vec![] },
            ControllerCfg {
                axes: vec![],
                buttons: vec![ButtonCfg { button: SOUTH, key: KEY_SPACE }],
            },
        ],
    };
    let mut led = KeyLedger::new();
    let mut out: Vec<KeyTransition> = Vec::new();
    config.handle_event(InputEvent::ButtonPressed { button: SOUTH }, &mut led, 1, &mut out);
    config.handle_event(InputEvent::ButtonPressed { button: SOUTH }, &mut led, 1, &mut out);
    config.handle_event(InputEvent::ButtonReleased { button: SOUTH }, &mut led, 1, &mut out);
    assert_eq!(
        out,
        vec![
            KeyTransition::Press(KEY_SPACE),
            KeyTransition::Press(KEY_SPACE),
            KeyTransition::Release(KEY_SPACE),
        ]
    );
    // The event-based strategy bypasses the ledger entirely.
    assert!(!led.is_down(KEY_SPACE));
}

#[test]
fn snapshot_button_values_are_idempotent() {
    // The same physical sequence through the value-based strategy collapses
    // the duplicate press into one emission.
    let mapping = ControllerCfg {
        axes: vec![],
        buttons: vec![ButtonCfg { button: SOUTH, key: KEY_SPACE }],
    };
    let mut led = KeyLedger::new();
    let mut out: Vec<KeyTransition> = Vec::new();
    for value in [1000, 1000, 0] {
        let snap = DeviceSnapshot {
            axes: vec![],
            buttons: vec![ButtonSample { button: SOUTH, value }],
        };
        mapping.handle_snapshot(&snap, &mut led, &mut out);
    }
    assert_eq!(
        out,
        vec![KeyTransition::Press(KEY_SPACE), KeyTransition::Release(KEY_SPACE)]
    );
    assert!(!led.is_down(KEY_SPACE));
}

#[test]
fn button_intensity_at_half_unit_releases() {
    let rule = ButtonCfg { button: SOUTH, key: KEY_SPACE };
    let mut led = KeyLedger::new();
    let mut out: Vec<KeyTransition> = Vec::new();
    rule.apply_value(HALF_UNIT + 1, &mut led, &mut out);
    assert_eq!(out, vec![KeyTransition::Press(KEY_SPACE)]);
    out.clear();
    // Exactly half deflection does not count as pressed.
    rule.apply_value(HALF_UNIT, &mut led, &mut out);
    assert_eq!(out, vec![KeyTransition::Release(KEY_SPACE)]);
}

#[test]
fn unreported_axis_counts_as_centered() {
    let mapping = ControllerCfg {
        axes: vec![AxisCfg { axis: LEFT_STICK_X, high_key: KEY_D, low_key: KEY_A, threshold: 300 }],
        buttons: vec![],
    };
    let mut led = KeyLedger::new();
    let mut out: Vec<KeyTransition> = Vec::new();
    let reported = DeviceSnapshot {
        axes: vec![AxisSample { axis: LEFT_STICK_X, value: 800 }],
        buttons: vec![],
    };
    mapping.handle_snapshot(&reported, &mut led, &mut out);
    assert_eq!(out, vec![KeyTransition::Press(KEY_D)]);
    out.clear();
    // A snapshot that no longer reports the axis reads as value 0: dead zone.
    let silent = DeviceSnapshot { axes: vec![], buttons: vec![] };
    mapping.handle_snapshot(&silent, &mut led, &mut out);
    assert_eq!(out, vec![KeyTransition::Release(KEY_D)]);
}

#[test]
fn modes_agree_on_axis_change_sequences() {
    // The same physical axis changes, dispatched discretely and as full
    // rescans, emit the same transitions and end in the same ledger state.
    let changes: Vec<(AxisId, i32)> = vec![
        (LEFT_STICK_X, 500),
        (AxisId(1), -900),
        (LEFT_STICK_X, 500),
        (LEFT_STICK_X, -400),
        (AxisId(1), 100),
        (LEFT_STICK_X, 0),
    ];
    let mapping = ControllerCfg {
        axes: vec![
            AxisCfg { axis: LEFT_STICK_X, high_key: KEY_D, low_key: KEY_A, threshold: 300 },
            AxisCfg { axis: AxisId(1), high_key: KeyId(17), low_key: KeyId(31), threshold: 500 },
        ],
        buttons: vec![],
    };

    let mut discrete_led = KeyLedger::new();
    let mut discrete_out: Vec<KeyTransition> = Vec::new();
    for &(axis, value) in &changes {
        for rule in &mapping.axes {
            rule.handle_event(axis, value, &mut discrete_led, &mut discrete_out);
        }
    }

    let mut snapshot_led = KeyLedger::new();
    let mut snapshot_out: Vec<KeyTransition> = Vec::new();
    let mut current: Vec<AxisSample> = Vec::new();
    for &(axis, value) in &changes {
        current.insert(0, AxisSample { axis, value });
        let snap = DeviceSnapshot { axes: current.clone(), buttons: vec![] };
        mapping.handle_snapshot(&snap, &mut snapshot_led, &mut snapshot_out);
    }

    assert_eq!(discrete_out, snapshot_out);
    for key in [KEY_A, KEY_D, KeyId(17), KeyId(31)] {
        assert_eq!(discrete_led.is_down(key), snapshot_led.is_down(key));
    }
}

#[test]
fn unmapped_button_emits_nothing() {
    let config = Config {
        controllers: vec![ControllerCfg {
            axes: vec![],
            buttons: vec![ButtonCfg { button: SOUTH, key: KEY_SPACE }],
        }],
    };
    let mut led = KeyLedger::new();
    let mut out: Vec<KeyTransition> = Vec::new();
    config.handle_event(InputEvent::ButtonPressed { button: ButtonId(5) }, &mut led, 0, &mut out);
    assert_eq!(out, Vec::new());
}

#[test]
fn first_button_rule_for_a_button_wins() {
    let config = Config {
        controllers: vec![ControllerCfg {
            axes: vec![],
            buttons: vec![
                ButtonCfg { button: SOUTH, key: KEY_SPACE },
                ButtonCfg { button: SOUTH, key: KEY_A },
            ],
        }],
    };
    let mut led = KeyLedger::new();
    let mut out: Vec<KeyTransition> = Vec::new();
    config.handle_event(InputEvent::ButtonPressed { button: SOUTH }, &mut led, 0, &mut out);
    assert_eq!(out, vec![KeyTransition::Press(KEY_SPACE)]);
}

#[test]
fn table_snapshot_pairs_nth_mapping_with_nth_device() {
    let config = Config {
        controllers: vec![
            ControllerCfg {
                axes: vec![AxisCfg {
                    axis: LEFT_STICK_X,
                    high_key: KEY_D,
                    low_key: KEY_A,
                    threshold: 300,
                }],
                buttons: vec![],
            },
            ControllerCfg {
                axes: vec![],
                buttons: vec![ButtonCfg { button: SOUTH, key: KEY_SPACE }],
            },
        ],
    };
    let snaps = vec![
        DeviceSnapshot {
            axes: vec![AxisSample { axis: LEFT_STICK_X, value: 900 }],
            buttons: vec![ButtonSample { button: SOUTH, value: 1000 }],
        },
        DeviceSnapshot {
            axes: vec![],
            buttons: vec![ButtonSample { button: SOUTH, value: 1000 }],
        },
    ];
    let mut led = KeyLedger::new();
    let mut out: Vec<KeyTransition> = Vec::new();
    config.handle_snapshot(&snaps, &mut led, &mut out);
    // Device 0's South press is not mapped; device 1's is.
    assert_eq!(
        out,
        vec![KeyTransition::Press(KEY_D), KeyTransition::Press(KEY_SPACE)]
    );
}
