//! Mirroring a half and the composition-level mirror swap.

use split_keymap::{mirror_pair, Config, Side};

fn codes(v: &[&str]) -> Vec<String> {
    v.iter().map(|s| s.to_string()).collect()
}

fn config_2x2() -> Config {
    Config {
        name: "kb".to_string(),
        vendorProductId: 7,
        macros: codes(&["m"]),
        layers: vec![codes(&["KC_A", "KC_B", "KC_C", "KC_D", "KC_E", "KC_F", "KC_G", "KC_H"])],
    }
}

#[test]
fn mirror_pair_swaps_and_reverses() {
    // After the swap the half that was on the right reads as the left half:
    // joining shows its keys first, each row flipped.
    let config = config_2x2();
    let (left, right) = config.split_map(2, 2).expect("dimensions fit");
    let (new_left, new_right) = mirror_pair(left, right);
    let joined = Config::join_maps(&new_left, &new_right);
    // Old right stored rows [F,E],[H,G] reversed become [E,F],[G,H]; they
    // are emitted first, in stored order. Old left rows [A,B],[C,D] reversed
    // become [B,A],[D,C]; emitted reversed, they read [A,B],[C,D] again.
    assert_eq!(
        joined.layers[0],
        codes(&["KC_E", "KC_F", "KC_G", "KC_H", "KC_A", "KC_B", "KC_C", "KC_D"])
    );
}

#[test]
fn mirror_pair_twice_restores_layout() {
    let config = config_2x2();
    let (left, right) = config.split_map(2, 2).expect("dimensions fit");
    let (l1, r1) = mirror_pair(left, right);
    let (l2, r2) = mirror_pair(l1, r1);
    let joined = Config::join_maps(&l2, &r2);
    assert_eq!(joined.layers[0], config_2x2().layers[0]);
    assert_eq!(joined.name, "kb");
    assert_eq!(joined.macros, codes(&["m"]));
}

#[test]
fn to_mirrored_twice_restores_half() {
    let config = config_2x2();
    let (left, right) = config.split_map(2, 2).expect("dimensions fit");
    let left_back = left.to_mirrored().to_mirrored();
    let joined = Config::join_maps(&left_back, &right);
    assert_eq!(joined.layers[0], config_2x2().layers[0]);
}

#[test]
fn side_opposite_flips_and_returns() {
    assert_eq!(Side::Left.opposite(), Side::Right);
    assert_eq!(Side::Right.opposite(), Side::Left);
    assert_eq!(Side::Left.opposite().opposite(), Side::Left);
}
