use oxidekeys::config::{default_features, default_globals, KeyboardConfig, Layer, RemapAction};
use oxidekeys::features::layers::LayersFeature;
use oxidekeys::features::overlaps::OverlapsFeature;
use oxidekeys::features::terms::TermsFeature;
use oxidekeys::features::{Context, Feature, FeatureResult, KeyEvent, KeyWrite, OutputEvent};
use oxidekeys::io::{emit, emit_passthrough};
use oxidekeys::keys::{
    KEY_A, KEY_B, KEY_C, KEY_LEFTCTRL, KEY_O, KEY_Q, KEY_RIGHTALT, KEY_S, KEY_SPACE, PRESS, RELEASE,
};
use oxidekeys::layouts::Layout;
use oxidekeys::pipeline::{dispatch, Pipeline};

fn ctx(layout: Layout, mappings: Vec<(u16, RemapAction)>, layers: Vec<Layer>) -> Context {
    Context::new(KeyboardConfig { layout, mappings, layers }, &default_globals())
}

#[test]
fn emit_writes_in_order_in_physical_codes() {
    let events = vec![OutputEvent::PressMany(vec![KEY_A, KEY_O]), OutputEvent::Release(KEY_C)];
    let writes = emit(Layout::Dvorak, &events);
    assert_eq!(
        writes,
        vec![
            KeyWrite { code: KEY_A, value: PRESS },
            KeyWrite { code: KEY_S, value: PRESS },
            KeyWrite { code: 23, value: RELEASE },
        ]
    );
    assert_eq!(emit_passthrough(Layout::Dvorak, 40, PRESS), KeyWrite { code: KEY_Q, value: PRESS });
}

#[test]
fn consume_dispatches_nothing() {
    assert_eq!(dispatch(Layout::Qwerty, &FeatureResult::Consume), vec![]);
    let e = KeyEvent { key: KEY_B, state: RELEASE };
    assert_eq!(dispatch(Layout::Qwerty, &FeatureResult::Continue(e)), vec![KeyWrite { code: KEY_B, value: RELEASE }]);
}

#[test]
fn pipeline_runs_features_in_order() {
    let mut c = ctx(
        Layout::Qwerty,
        vec![(KEY_A, RemapAction { tap: Some(vec![KEY_A]), hold: Some(vec![KEY_LEFTCTRL]), overlap: None, term: Some(50) })],
        vec![],
    );
    let mut p = Pipeline::new(default_features());
    assert_eq!(p.process_event(&mut c, KEY_A, PRESS), vec![]);
    assert!(c.keys_down.contains(KEY_A));
    let timers = p.take_timer_requests();
    assert_eq!(timers.len(), 1);
    assert_eq!(timers[0].delay_ms, 50);
    c.now = 60;
    assert_eq!(p.process_timer_event(&mut c, KEY_A), vec![KeyWrite { code: KEY_LEFTCTRL, value: PRESS }]);
    assert_eq!(p.process_event(&mut c, KEY_A, RELEASE), vec![KeyWrite { code: KEY_LEFTCTRL, value: RELEASE }]);
    assert!(!c.keys_down.contains(KEY_A));
}

#[test]
fn features_decide_directly() {
    let symbols = Layer { name: "Symbols".to_string(), triggers: vec![(KEY_RIGHTALT, vec![(KEY_B, vec![KEY_C])])] };
    let mut c = ctx(
        Layout::Qwerty,
        vec![(KEY_SPACE, RemapAction { tap: Some(vec![KEY_SPACE]), hold: None, overlap: Some(true), term: None })],
        vec![symbols],
    );
    let mut layers = LayersFeature::new();
    assert_eq!(layers.name(), "layers");
    assert!(matches!(layers.on_event(KeyEvent { key: KEY_RIGHTALT, state: PRESS }, &mut c), FeatureResult::Consume));
    assert_eq!(c.active_layers, vec![true]);
    match layers.on_event(KeyEvent { key: KEY_B, state: PRESS }, &mut c) {
        FeatureResult::Emit(out) => assert_eq!(out, vec![OutputEvent::PressMany(vec![KEY_C])]),
        _ => panic!("expected the layer target"),
    }
    let mut overlaps = OverlapsFeature::new();
    assert!(matches!(overlaps.on_event(KeyEvent { key: KEY_SPACE, state: PRESS }, &mut c), FeatureResult::Consume));
    match overlaps.on_event(KeyEvent { key: KEY_SPACE, state: RELEASE }, &mut c) {
        FeatureResult::Emit(out) => {
            assert_eq!(out, vec![OutputEvent::PressMany(vec![KEY_SPACE]), OutputEvent::ReleaseMany(vec![KEY_SPACE])])
        }
        _ => panic!("expected the tap"),
    }
    let mut terms = TermsFeature::new();
    assert!(terms.on_timer(KEY_A, &mut c).is_none());
    assert!(matches!(terms.on_event(KeyEvent { key: KEY_A, state: PRESS }, &mut c), FeatureResult::Continue(_)));
}
