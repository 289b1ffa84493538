//! Splitting a flat layout, joining the halves back, and the dimension check.

use split_keymap::Config;

fn codes(v: &[&str]) -> Vec<String> {
    v.iter().map(|s| s.to_string()).collect()
}

fn two_layer_config() -> Config {
    // 2 layers, 4 keys each: fits w = 2, h = 1 (2*2*1 = 4 keys per layer).
    Config {
        name: "testboard".to_string(),
        vendorProductId: 4660,
        macros: codes(&["macro one", "macro two"]),
        layers: vec![
            codes(&["KC_A", "KC_B", "KC_C", "KC_D"]),
            codes(&["KC_1", "KC_2", "KC_3", "KC_4"]),
        ],
    }
}

fn eight_key_config() -> Config {
    // 1 layer of 8 keys: fits w = 2, h = 2 (2*2*2 = 8).
    Config {
        name: "kb".to_string(),
        vendorProductId: 1,
        macros: vec![],
        layers: vec![codes(&["KC_A", "KC_B", "KC_C", "KC_D", "KC_E", "KC_F", "KC_G", "KC_H"])],
    }
}

#[test]
fn concrete_two_layer_scenario() {
    // 2 layers of width 2 and height 1: the left half takes keys 0-1 of each
    // flat layer, the right half keys 2-3 in reverse; joining reproduces each
    // flat layer exactly.
    let config = two_layer_config();
    let (left, right) = config.split_map(2, 1).expect("dimensions fit");
    assert_eq!(left.layers(), 2);
    assert_eq!(right.layers(), 2);
    assert_eq!(left.width(), 2);
    assert_eq!(right.width(), 2);

    let joined = Config::join_maps(&left, &right);
    assert_eq!(joined.layers[0], codes(&["KC_A", "KC_B", "KC_C", "KC_D"]));
    assert_eq!(joined.layers[1], codes(&["KC_1", "KC_2", "KC_3", "KC_4"]));
}

#[test]
fn split_join_round_trip_identity() {
    let config = eight_key_config();
    let (left, right) = config.split_map(2, 2).expect("dimensions fit");
    let joined = Config::join_maps(&left, &right);
    let original = eight_key_config();
    assert_eq!(joined.name, original.name);
    assert_eq!(joined.vendorProductId, original.vendorProductId);
    assert_eq!(joined.macros, original.macros);
    assert_eq!(joined.layers, original.layers);
}

#[test]
fn split_rejects_wrong_length() {
    let config = two_layer_config();
    // 4 keys per layer, but other dimensions expect a different count.
    assert!(config.split_map(3, 2).is_none());
    assert!(config.split_map(2, 2).is_none());
    assert!(config.split_map(0, 0).is_none());
}

#[test]
fn split_rejects_one_bad_layer() {
    let mut config = two_layer_config();
    config.layers[1].pop();
    // The first layer still fits w = 2, h = 1; the second no longer does,
    // and the layout is rejected as a whole.
    assert!(config.split_map(2, 1).is_none());
}

#[test]
fn split_right_half_rows_are_reversed() {
    // w = 2, h = 2 on [A..H]: left rows are [A,B],[C,D]; the right half's
    // stored rows are [F,E],[H,G] (each flat slice reversed). Mirroring the
    // right half re-reverses its rows to [E,F],[G,H], and joining emits right
    // rows reversed once more, so the joined flat array shows [F,E],[H,G]:
    // the right half's matrix storage order.
    let config = eight_key_config();
    let (left, right) = config.split_map(2, 2).expect("dimensions fit");
    let mirrored_right = right.to_mirrored();
    let joined = Config::join_maps(&left, &mirrored_right);
    assert_eq!(
        joined.layers[0],
        codes(&["KC_A", "KC_B", "KC_C", "KC_D", "KC_F", "KC_E", "KC_H", "KC_G"])
    );
}

#[test]
fn join_copies_identity_from_left() {
    let config = two_layer_config();
    let (left, right) = config.split_map(2, 1).expect("dimensions fit");
    let joined = Config::join_maps(&left, &right);
    assert_eq!(joined.name, "testboard");
    assert_eq!(joined.vendorProductId, 4660);
    assert_eq!(joined.macros, codes(&["macro one", "macro two"]));
}

#[test]
fn split_empty_layer_list() {
    let config = Config {
        name: "kb".to_string(),
        vendorProductId: 0,
        macros: vec![],
        layers: vec![],
    };
    // With no layers every layer vacuously has the right length.
    let (left, right) = config.split_map(3, 2).expect("no layer can fail the check");
    assert_eq!(left.layers(), 0);
    assert_eq!(right.layers(), 0);
    let joined = Config::join_maps(&left, &right);
    assert_eq!(joined.layers.len(), 0);
}
