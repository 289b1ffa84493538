//! The key-code wrapper.

use split_keymap::Key;

#[test]
fn key_round_trips_its_code() {
    let k = Key::new("KC_LSFT".to_string());
    assert_eq!(k.k(), "KC_LSFT");
}

#[test]
fn blank_key_is_the_reserved_code() {
    let b = Key::blank();
    assert_eq!(b.k(), "KC_NO");
}

#[test]
fn duplicate_copies_the_code() {
    let k = Key::new("S(KC_9)".to_string());
    let d = k.duplicate();
    assert_eq!(d.k(), "S(KC_9)");
    assert_eq!(k.k(), "S(KC_9)");
}
