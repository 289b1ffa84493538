//! Row and column edits: insertion content, clamped removal, and the
//! side-independent center convention.

use split_keymap::Config;

fn codes(v: &[&str]) -> Vec<String> {
    v.iter().map(|s| s.to_string()).collect()
}

fn config_2x2() -> Config {
    // One layer of 8 keys: w = 2, h = 2.
    Config {
        name: "kb".to_string(),
        vendorProductId: 7,
        macros: vec![],
        layers: vec![codes(&["KC_A", "KC_B", "KC_C", "KC_D", "KC_E", "KC_F", "KC_G", "KC_H"])],
    }
}

#[test]
fn rows_top_insertion_content() {
    // Adding 2 rows at the top of a 2x2 half yields height 4; the new rows
    // are all blank and the old rows keep their content, shifted down.
    let config = config_2x2();
    let (mut left, mut right) = config.split_map(2, 2).expect("dimensions fit");
    left.change_rows_top(2);
    right.change_rows_top(2);
    assert_eq!(left.width(), 2);
    let joined = Config::join_maps(&left, &right);
    assert_eq!(
        joined.layers[0],
        codes(&[
            "KC_NO", "KC_NO", "KC_NO", "KC_NO", "KC_A", "KC_B", "KC_C", "KC_D", "KC_NO", "KC_NO",
            "KC_NO", "KC_NO", "KC_E", "KC_F", "KC_G", "KC_H",
        ])
    );
}

#[test]
fn rows_top_removal() {
    let config = config_2x2();
    let (mut left, mut right) = config.split_map(2, 2).expect("dimensions fit");
    left.change_rows_top(-1);
    right.change_rows_top(-1);
    let joined = Config::join_maps(&left, &right);
    // The top row of each half is gone: left kept [C,D], right kept
    // its second stored row, which joins back as [G,H].
    assert_eq!(joined.layers[0], codes(&["KC_C", "KC_D", "KC_G", "KC_H"]));
}

#[test]
fn rows_bottom_insert_and_remove() {
    let config = config_2x2();
    let (mut left, mut right) = config.split_map(2, 2).expect("dimensions fit");
    left.change_rows_bottom(1);
    right.change_rows_bottom(1);
    left.change_rows_bottom(-2);
    right.change_rows_bottom(-2);
    let joined = Config::join_maps(&left, &right);
    // One blank row added at the bottom, then two rows removed from the
    // bottom: only the original top row is left.
    assert_eq!(joined.layers[0], codes(&["KC_A", "KC_B", "KC_E", "KC_F"]));
}

#[test]
fn rows_removal_clamps_at_empty() {
    let config = config_2x2();
    let (mut left, mut right) = config.split_map(2, 2).expect("dimensions fit");
    left.change_rows_top(-5);
    right.change_rows_top(-5);
    // Removing more rows than exist empties the layers and stops there.
    let joined = Config::join_maps(&left, &right);
    assert_eq!(joined.layers[0], Vec::<String>::new());
}

#[test]
fn cols_center_targets_index_zero_on_both_sides() {
    // The center edit inserts at index 0 of every row on the Left matrix and
    // on the Right matrix alike. In the joined flat layer the left half's
    // rows appear in stored order (blank first) and the right half's rows
    // are emitted reversed (blank last).
    let config = config_2x2();
    let (mut left, mut right) = config.split_map(2, 2).expect("dimensions fit");
    left.change_cols_center(1);
    right.change_cols_center(1);
    assert_eq!(left.width(), 3);
    assert_eq!(right.width(), 3);
    let joined = Config::join_maps(&left, &right);
    assert_eq!(
        joined.layers[0],
        codes(&[
            "KC_NO", "KC_A", "KC_B", "KC_NO", "KC_C", "KC_D", "KC_E", "KC_F", "KC_NO", "KC_G",
            "KC_H", "KC_NO",
        ])
    );
}

#[test]
fn cols_sides_targets_row_end_on_both_sides() {
    let config = config_2x2();
    let (mut left, mut right) = config.split_map(2, 2).expect("dimensions fit");
    left.change_cols_sides(1);
    right.change_cols_sides(1);
    let joined = Config::join_maps(&left, &right);
    assert_eq!(
        joined.layers[0],
        codes(&[
            "KC_A", "KC_B", "KC_NO", "KC_C", "KC_D", "KC_NO", "KC_NO", "KC_E", "KC_F", "KC_NO",
            "KC_G", "KC_H",
        ])
    );
}

#[test]
fn cols_center_removal() {
    let config = config_2x2();
    let (mut left, mut right) = config.split_map(2, 2).expect("dimensions fit");
    left.change_cols_center(-1);
    right.change_cols_center(-1);
    assert_eq!(left.width(), 1);
    let joined = Config::join_maps(&left, &right);
    // Each row loses its key at index 0: left rows keep [B],[D]; right rows
    // keep their outer keys, joined back as [E],[G].
    assert_eq!(joined.layers[0], codes(&["KC_B", "KC_D", "KC_E", "KC_G"]));
}

#[test]
fn cols_removal_clamps_at_empty_rows() {
    let config = config_2x2();
    let (mut left, mut right) = config.split_map(2, 2).expect("dimensions fit");
    left.change_cols_sides(-100);
    right.change_cols_sides(-100);
    assert_eq!(left.width(), 0);
    assert_eq!(right.width(), 0);
    let joined = Config::join_maps(&left, &right);
    assert_eq!(joined.layers[0], Vec::<String>::new());
}

#[test]
fn edits_apply_to_every_layer() {
    let config = Config {
        name: "kb".to_string(),
        vendorProductId: 7,
        macros: vec![],
        layers: vec![
            codes(&["KC_A", "KC_B", "KC_C", "KC_D"]),
            codes(&["KC_1", "KC_2", "KC_3", "KC_4"]),
        ],
    };
    let (mut left, mut right) = config.split_map(2, 1).expect("dimensions fit");
    left.change_rows_bottom(1);
    right.change_rows_bottom(1);
    let joined = Config::join_maps(&left, &right);
    assert_eq!(
        joined.layers[0],
        codes(&["KC_A", "KC_B", "KC_NO", "KC_NO", "KC_C", "KC_D", "KC_NO", "KC_NO"])
    );
    assert_eq!(
        joined.layers[1],
        codes(&["KC_1", "KC_2", "KC_NO", "KC_NO", "KC_3", "KC_4", "KC_NO", "KC_NO"])
    );
}

#[test]
fn edits_on_emptied_layers() {
    let config = config_2x2();
    let (mut left, mut right) = config.split_map(2, 2).expect("dimensions fit");
    left.change_rows_top(-2);
    right.change_rows_top(-2);
    assert_eq!(left.width(), 0);
    // Column edits on layers without rows change nothing.
    left.change_cols_center(3);
    right.change_cols_center(3);
    assert_eq!(left.width(), 0);
    // New rows take the current width: zero keys each.
    left.change_rows_bottom(2);
    right.change_rows_bottom(2);
    assert_eq!(left.width(), 0);
    let joined = Config::join_maps(&left, &right);
    assert_eq!(joined.layers[0], Vec::<String>::new());
}

#[test]
fn inserted_rows_use_current_width() {
    let config = config_2x2();
    let (mut left, mut right) = config.split_map(2, 2).expect("dimensions fit");
    left.change_cols_sides(1);
    right.change_cols_sides(1);
    left.change_rows_top(1);
    right.change_rows_top(1);
    // The new top row is as wide as the widened matrix: three blanks.
    assert_eq!(left.width(), 3);
    let joined = Config::join_maps(&left, &right);
    assert_eq!(joined.layers[0].len(), 18);
    assert_eq!(joined.layers[0][..3], codes(&["KC_NO", "KC_NO", "KC_NO"])[..]);
}
