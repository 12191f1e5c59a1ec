use oxidekeys::config::{default_features, default_globals, KeyboardConfig, RemapAction};
use oxidekeys::features::KeyWrite;
use oxidekeys::keys::{
    EV_KEY, KEY_A, KEY_APOSTROPHE, KEY_COMMA, KEY_ESC, KEY_O, KEY_Q, KEY_S, KEY_SEMICOLON, KEY_Z, PRESS,
};
use oxidekeys::layouts::{default_layout, Layout};
use oxidekeys::worker::Worker;

#[test]
fn qwerty_is_identity() {
    for k in 0u16..=255 {
        assert_eq!(Layout::Qwerty.resolve(&k), k);
        assert_eq!(Layout::Qwerty.resolve_reverse(&k), k);
    }
}

#[test]
fn dvorak_translates_letters() {
    assert_eq!(Layout::Dvorak.resolve(&KEY_Q), KEY_APOSTROPHE);
    assert_eq!(Layout::Dvorak.resolve(&KEY_S), KEY_O);
    assert_eq!(Layout::Dvorak.resolve(&KEY_Z), KEY_SEMICOLON);
    assert_eq!(Layout::Dvorak.resolve(&KEY_A), KEY_A);
    assert_eq!(Layout::Dvorak.resolve_reverse(&KEY_O), KEY_S);
    assert_eq!(Layout::Dvorak.resolve_reverse(&KEY_COMMA), 17);
    assert_eq!(Layout::Dvorak.resolve(&KEY_ESC), KEY_ESC);
}

#[test]
fn dvorak_round_trips() {
    for k in 0u16..=1023 {
        assert_eq!(Layout::Dvorak.resolve_reverse(&Layout::Dvorak.resolve(&k)), k);
        assert_eq!(Layout::Dvorak.resolve(&Layout::Dvorak.resolve_reverse(&k)), k);
    }
}

#[test]
fn default_layout_is_qwerty() {
    assert_eq!(default_layout(), Layout::Qwerty);
}

#[test]
fn passthrough_returns_the_physical_key() {
    let cfg = KeyboardConfig { layout: Layout::Dvorak, mappings: vec![], layers: vec![] };
    let mut w = Worker::new(cfg, &default_globals(), default_features());
    assert_eq!(w.on_input(EV_KEY, KEY_Q, PRESS, 0), vec![KeyWrite { code: KEY_Q, value: PRESS }]);
}

#[test]
fn dvorak_mapping_uses_logical_codes() {
    // Physical S types the logical O.
    let cfg = KeyboardConfig {
        layout: Layout::Dvorak,
        mappings: vec![(KEY_O, RemapAction { tap: Some(vec![KEY_A]), hold: None, overlap: None, term: None })],
        layers: vec![],
    };
    let mut w = Worker::new(cfg, &default_globals(), default_features());
    assert_eq!(w.on_input(EV_KEY, KEY_S, PRESS, 0), vec![KeyWrite { code: KEY_A, value: PRESS }]);
}
