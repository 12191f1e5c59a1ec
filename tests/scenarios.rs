use oxidekeys::config::{default_features, default_globals, KeyboardConfig, Layer, RemapAction};
use oxidekeys::features::KeyWrite;
use oxidekeys::keys::{
    EV_KEY, KEY_0, KEY_A, KEY_B, KEY_BACKSPACE, KEY_CAPSLOCK, KEY_J, KEY_LEFTCTRL, KEY_LEFTSHIFT,
    KEY_RIGHTALT, KEY_RIGHTSHIFT, KEY_SPACE, PRESS, RELEASE, REPEAT,
};
use oxidekeys::layouts::Layout;
use oxidekeys::worker::Worker;

fn press(code: u16) -> KeyWrite {
    KeyWrite { code, value: PRESS }
}

fn release(code: u16) -> KeyWrite {
    KeyWrite { code, value: RELEASE }
}

fn action(tap: Option<Vec<u16>>, hold: Option<Vec<u16>>, overlap: bool, term: Option<u16>) -> RemapAction {
    RemapAction { tap, hold, overlap: Some(overlap), term }
}

fn worker(mappings: Vec<(u16, RemapAction)>, layers: Vec<Layer>) -> Worker {
    let cfg = KeyboardConfig { layout: Layout::Qwerty, mappings, layers };
    Worker::new(cfg, &default_globals(), default_features())
}

fn space_overlap() -> Worker {
    worker(
        vec![(KEY_SPACE, action(Some(vec![KEY_SPACE]), Some(vec![KEY_LEFTSHIFT]), true, None))],
        vec![],
    )
}

fn a_term() -> Worker {
    worker(
        vec![(KEY_A, action(Some(vec![KEY_A]), Some(vec![KEY_LEFTCTRL]), false, Some(144)))],
        vec![],
    )
}

#[test]
fn tap_with_no_overlap() {
    let mut w = space_overlap();
    assert_eq!(w.on_input(EV_KEY, KEY_SPACE, PRESS, 0), vec![]);
    assert_eq!(w.on_input(EV_KEY, KEY_SPACE, RELEASE, 10), vec![press(KEY_SPACE), release(KEY_SPACE)]);
}

#[test]
fn hold_via_overlap() {
    let mut w = space_overlap();
    assert_eq!(w.on_input(EV_KEY, KEY_SPACE, PRESS, 0), vec![]);
    assert_eq!(w.on_input(EV_KEY, KEY_B, PRESS, 5), vec![press(KEY_LEFTSHIFT), press(KEY_B)]);
    assert_eq!(w.on_input(EV_KEY, KEY_B, RELEASE, 10), vec![release(KEY_B)]);
    assert_eq!(w.on_input(EV_KEY, KEY_SPACE, RELEASE, 15), vec![release(KEY_LEFTSHIFT)]);
}

#[test]
fn term_decides_tap_on_fast_release() {
    let mut w = a_term();
    assert_eq!(w.on_input(EV_KEY, KEY_A, PRESS, 0), vec![]);
    let timers = w.take_timer_requests();
    assert_eq!(timers.len(), 1);
    assert_eq!(timers[0].key, KEY_A);
    assert_eq!(timers[0].delay_ms, 144);
    assert_eq!(w.on_input(EV_KEY, KEY_A, RELEASE, 50), vec![press(KEY_A), release(KEY_A)]);
    // The timer that comes after the release does nothing.
    assert_eq!(w.on_timer(KEY_A, 144), vec![]);
}

#[test]
fn term_decides_hold_on_slow_release() {
    let mut w = a_term();
    assert_eq!(w.on_input(EV_KEY, KEY_A, PRESS, 0), vec![]);
    assert_eq!(w.on_timer(KEY_A, 144), vec![press(KEY_LEFTCTRL)]);
    assert_eq!(w.on_input(EV_KEY, KEY_A, RELEASE, 200), vec![release(KEY_LEFTCTRL)]);
}

#[test]
fn timer_before_the_term_does_nothing() {
    let mut w = a_term();
    assert_eq!(w.on_input(EV_KEY, KEY_A, PRESS, 100), vec![]);
    assert_eq!(w.on_timer(KEY_A, 150), vec![]);
    assert_eq!(w.on_timer(KEY_A, 244), vec![press(KEY_LEFTCTRL)]);
    // A second timer message sends nothing more.
    assert_eq!(w.on_timer(KEY_A, 300), vec![]);
    assert_eq!(w.on_input(EV_KEY, KEY_A, RELEASE, 400), vec![release(KEY_LEFTCTRL)]);
}

#[test]
fn layer_trigger_and_layered_key() {
    let symbols = Layer {
        name: "Symbols".to_string(),
        triggers: vec![(KEY_RIGHTALT, vec![(KEY_J, vec![KEY_RIGHTSHIFT, KEY_0])])],
    };
    let mut w = worker(vec![], vec![symbols]);
    assert_eq!(w.on_input(EV_KEY, KEY_RIGHTALT, PRESS, 0), vec![]);
    assert_eq!(w.on_input(EV_KEY, KEY_J, PRESS, 1), vec![press(KEY_RIGHTSHIFT), press(KEY_0)]);
    assert_eq!(w.on_input(EV_KEY, KEY_J, RELEASE, 2), vec![release(KEY_RIGHTSHIFT), release(KEY_0)]);
    assert_eq!(w.on_input(EV_KEY, KEY_RIGHTALT, RELEASE, 3), vec![]);
    // Without the layer, the key goes through as it is.
    assert_eq!(w.on_input(EV_KEY, KEY_J, PRESS, 4), vec![press(KEY_J)]);
    assert_eq!(w.on_input(EV_KEY, KEY_J, RELEASE, 5), vec![release(KEY_J)]);
}

#[test]
fn crash_release_discipline() {
    let mut w = worker(
        vec![
            (KEY_A, action(Some(vec![KEY_A]), Some(vec![KEY_LEFTCTRL]), false, None)),
            (KEY_B, action(Some(vec![KEY_B]), Some(vec![KEY_LEFTSHIFT]), false, None)),
        ],
        vec![],
    );
    w.on_input(EV_KEY, KEY_A, PRESS, 0);
    w.on_input(EV_KEY, KEY_B, PRESS, 1);
    let out = w.shutdown_writes();
    assert!(out.contains(&release(KEY_A)));
    assert!(out.contains(&release(KEY_B)));
    assert_eq!(out.len(), 2);
}

#[test]
fn tap_only_key_goes_out_at_once() {
    let mut w = worker(vec![(KEY_CAPSLOCK, action(Some(vec![KEY_BACKSPACE]), None, false, None))], vec![]);
    assert_eq!(w.on_input(EV_KEY, KEY_CAPSLOCK, PRESS, 0), vec![press(KEY_BACKSPACE)]);
    assert_eq!(w.take_timer_requests().len(), 0);
    assert_eq!(w.on_input(EV_KEY, KEY_CAPSLOCK, RELEASE, 500), vec![release(KEY_BACKSPACE)]);
}

#[test]
fn empty_sequences_emit_nothing() {
    let mut w = worker(
        vec![
            (KEY_SPACE, action(Some(vec![]), Some(vec![]), true, None)),
            (KEY_A, action(Some(vec![]), Some(vec![]), false, None)),
        ],
        vec![],
    );
    assert_eq!(w.on_input(EV_KEY, KEY_SPACE, PRESS, 0), vec![]);
    assert_eq!(w.on_input(EV_KEY, KEY_SPACE, RELEASE, 1), vec![]);
    assert_eq!(w.on_input(EV_KEY, KEY_SPACE, PRESS, 2), vec![]);
    // The overlap fires with an empty hold: only the other key goes out.
    assert_eq!(w.on_input(EV_KEY, KEY_B, PRESS, 3), vec![press(KEY_B)]);
    assert_eq!(w.on_input(EV_KEY, KEY_B, RELEASE, 4), vec![release(KEY_B)]);
    assert_eq!(w.on_input(EV_KEY, KEY_SPACE, RELEASE, 5), vec![]);
    assert_eq!(w.on_input(EV_KEY, KEY_A, PRESS, 6), vec![]);
    assert_eq!(w.take_timer_requests().len(), 0);
    assert_eq!(w.on_input(EV_KEY, KEY_A, RELEASE, 7), vec![]);
}

#[test]
fn zero_term_never_taps() {
    let mut w = worker(vec![(KEY_A, action(Some(vec![KEY_A]), Some(vec![KEY_LEFTCTRL]), false, Some(0)))], vec![]);
    assert_eq!(w.on_input(EV_KEY, KEY_A, PRESS, 10), vec![]);
    let timers = w.take_timer_requests();
    assert_eq!(timers[0].delay_ms, 0);
    assert_eq!(w.on_timer(KEY_A, 10), vec![press(KEY_LEFTCTRL)]);
    assert_eq!(w.on_input(EV_KEY, KEY_A, RELEASE, 11), vec![release(KEY_LEFTCTRL)]);
}

#[test]
fn repeats_and_other_events_are_dropped() {
    let mut w = space_overlap();
    assert_eq!(w.on_input(EV_KEY, KEY_B, REPEAT, 0), vec![]);
    assert_eq!(w.on_input(0, 0, 0, 0), vec![]);
    assert_eq!(w.on_input(EV_KEY, KEY_B, PRESS, 1), vec![press(KEY_B)]);
    assert_eq!(w.on_input(EV_KEY, KEY_B, REPEAT, 2), vec![]);
    assert_eq!(w.on_input(EV_KEY, KEY_B, RELEASE, 3), vec![release(KEY_B)]);
}

#[test]
fn single_layer_resolution_is_deterministic() {
    let make = || {
        let symbols = Layer {
            name: "Symbols".to_string(),
            triggers: vec![(KEY_RIGHTALT, vec![(KEY_J, vec![KEY_RIGHTSHIFT, KEY_0])])],
        };
        worker(vec![], vec![symbols])
    };
    let mut first = Vec::new();
    let mut second = Vec::new();
    for out in [&mut first, &mut second] {
        let mut w = make();
        for (i, (k, s)) in [(KEY_RIGHTALT, PRESS), (KEY_J, PRESS), (KEY_J, RELEASE), (KEY_RIGHTALT, RELEASE)]
            .into_iter()
            .enumerate()
        {
            out.extend(w.on_input(EV_KEY, k, s, i as u64));
        }
    }
    assert_eq!(first, second);
    assert_eq!(first.len(), 4);
}

#[test]
fn disabled_features_pass_everything() {
    let cfg = KeyboardConfig {
        layout: Layout::Qwerty,
        mappings: vec![(KEY_SPACE, action(Some(vec![KEY_SPACE]), Some(vec![KEY_LEFTSHIFT]), true, None))],
        layers: vec![],
    };
    let features = oxidekeys::config::Features { layers: false, overlaps: false, terms: false };
    let mut w = Worker::new(cfg, &default_globals(), features);
    assert_eq!(w.on_input(EV_KEY, KEY_SPACE, PRESS, 0), vec![press(KEY_SPACE)]);
    assert_eq!(w.on_input(EV_KEY, KEY_SPACE, RELEASE, 1), vec![release(KEY_SPACE)]);
}

#[test]
fn mixed_run_stays_balanced() {
    let symbols = Layer {
        name: "Symbols".to_string(),
        triggers: vec![(KEY_RIGHTALT, vec![(KEY_J, vec![KEY_RIGHTSHIFT, KEY_0])])],
    };
    let mut w = worker(
        vec![
            (KEY_SPACE, action(Some(vec![KEY_SPACE]), Some(vec![KEY_LEFTSHIFT]), true, None)),
            (KEY_A, action(Some(vec![KEY_A]), Some(vec![KEY_LEFTCTRL]), false, Some(100))),
            (KEY_CAPSLOCK, action(Some(vec![KEY_BACKSPACE]), None, false, None)),
        ],
        vec![symbols],
    );
    let mut out: Vec<KeyWrite> = Vec::new();
    let steps: Vec<(Option<(u16, i32)>, u64)> = vec![
        (Some((KEY_SPACE, PRESS)), 0),
        (Some((KEY_A, PRESS)), 10),
        (Some((KEY_B, PRESS)), 20),
        (None, 110),
        (Some((KEY_SPACE, RELEASE)), 120),
        (Some((KEY_A, RELEASE)), 130),
        (Some((KEY_CAPSLOCK, PRESS)), 140),
        (Some((KEY_B, RELEASE)), 150),
        (Some((KEY_CAPSLOCK, RELEASE)), 160),
        (Some((KEY_A, PRESS)), 170),
        (None, 270),
        (Some((KEY_A, RELEASE)), 280),
        (Some((KEY_RIGHTALT, PRESS)), 300),
        (Some((KEY_J, PRESS)), 310),
        (Some((KEY_J, RELEASE)), 320),
        (Some((KEY_RIGHTALT, RELEASE)), 330),
    ];
    for (input, now) in steps {
        match input {
            Some((k, s)) => out.extend(w.on_input(EV_KEY, k, s, now)),
            None => out.extend(w.on_timer(KEY_A, now)),
        }
        w.take_timer_requests();
    }
    let mut down = std::collections::HashMap::new();
    for wr in &out {
        let n = down.entry(wr.code).or_insert(0i32);
        *n += if wr.value == PRESS { 1 } else { -1 };
        assert!(*n >= 0, "released more than pressed: {:?}", wr);
    }
    assert!(down.values().all(|n| *n == 0));
    assert!(out.contains(&press(KEY_LEFTCTRL)));
    assert!(out.contains(&press(KEY_RIGHTSHIFT)));
}
