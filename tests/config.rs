use oxidekeys::config::{
    default_features, default_globals, default_hrm_term, default_no_emit, parse_key, parse_keys,
    ConfigError, RemapAction,
};
use oxidekeys::config::{Config, KeyboardConfig};
use oxidekeys::keys::{KEY_A, KEY_LEFTSHIFT, KEY_RIGHTALT};
use oxidekeys::layouts::Layout;
use oxidekeys::state::{add_pending, remove_pending, Pending};

#[test]
fn defaults() {
    let f = default_features();
    assert!(f.layers && f.overlaps && f.terms);
    assert!(!default_no_emit());
    assert_eq!(default_hrm_term(), 144);
    let g = default_globals();
    assert_eq!(g.term, 144);
    assert!(!g.no_emit);
}

#[test]
fn key_names_parse() {
    let names = vec!["KEY_A".to_string(), "KEY_LEFTSHIFT".to_string(), "KEY_RIGHTALT".to_string()];
    assert_eq!(parse_keys(&names), Ok(vec![KEY_A, KEY_LEFTSHIFT, KEY_RIGHTALT]));
    assert_eq!(parse_key(&"KEY_A".to_string()), Ok(KEY_A));
}

#[test]
fn unknown_key_name_is_an_error() {
    let names = vec!["KEY_A".to_string(), "KEY_FOOBAR".to_string(), "KEY_NOPE".to_string()];
    assert_eq!(parse_keys(&names), Err(ConfigError::UnknownKey("KEY_FOOBAR".to_string())));
    assert_eq!(parse_key(&"a".to_string()), Err(ConfigError::UnknownKey("a".to_string())));
}

#[test]
fn pending_table_inserts_once_and_removes() {
    let mut pending: Pending = Vec::new();
    let remap = RemapAction { tap: Some(vec![KEY_A]), hold: Some(vec![KEY_LEFTSHIFT]), overlap: None, term: None };
    add_pending(&mut pending, KEY_A, &remap, 5);
    add_pending(&mut pending, KEY_A, &remap, 9);
    assert_eq!(pending.len(), 1);
    assert_eq!(pending[0].1.time_pressed, 5);
    assert!(!pending[0].1.hold_sent && !pending[0].1.tap_sent && !pending[0].1.timer_fired);
    assert!(remove_pending(&mut pending, &KEY_LEFTSHIFT).is_none());
    let e = remove_pending(&mut pending, &KEY_A).unwrap();
    assert_eq!(e.remap.tap, Some(vec![KEY_A]));
    assert!(pending.is_empty());
}

#[test]
fn devices_match_keyboards_by_name() {
    let kb = |layout| KeyboardConfig { layout, mappings: vec![], layers: vec![] };
    let config = Config {
        globals: default_globals(),
        features: default_features(),
        keyboards: vec![
            ("AT Translated Set 2 keyboard".to_string(), kb(Layout::Dvorak)),
            ("Other".to_string(), kb(Layout::Qwerty)),
        ],
    };
    assert_eq!(config.keyboard_index(&"Other".to_string()), Some(1));
    assert_eq!(config.keyboard_index(&"AT Translated Set 2 keyboard".to_string()), Some(0));
    assert_eq!(config.keyboard_index(&"other".to_string()), None);
}
