use flatconvert::font::selection_bounds;
use flatconvert::selection::{pick_map, range_map, selection_map, symbol_name};

#[test]
fn bounds_are_first_and_last_selected_code() {
    let mut map = [0u8; 256];
    map[65] = 1;
    map[70] = 3;
    assert_eq!(selection_bounds(&map), (65, 70));
}

#[test]
fn bounds_of_one_selected_code() {
    let mut map = [0u8; 256];
    map[255] = 1;
    assert_eq!(selection_bounds(&map), (255, 255));
}

#[test]
fn bounds_of_an_empty_selection() {
    let map = [0u8; 256];
    assert_eq!(selection_bounds(&map), (-1, 256));
}

#[test]
fn pick_selects_the_codes_of_its_characters() {
    let m = pick_map("AC\u{e9}");
    for j in 0..256 {
        let expected = if j == 65 || j == 67 || j == 0xe9 { 1 } else { 0 };
        assert_eq!(m[j], expected, "code {}", j);
    }
}

#[test]
fn range_selects_begin_to_end() {
    let m = range_map(32, 127);
    for j in 0..256 {
        let expected = if (32..=127).contains(&j) { 1 } else { 0 };
        assert_eq!(m[j], expected, "code {}", j);
    }
    let full = range_map(0, 255);
    assert!(full.iter().all(|&v| v == 1));
}

#[test]
fn reversed_range_selects_nothing() {
    let m = range_map(10, 5);
    assert!(m.iter().all(|&v| v == 0));
}

#[test]
fn pick_wins_over_the_range() {
    let m = selection_map("z", 32, 127);
    assert_eq!(m[122], 1);
    assert_eq!(m[65], 0);
    let r = selection_map("", 48, 57);
    assert_eq!(r[48], 1);
    assert_eq!(r[57], 1);
    assert_eq!(r[58], 0);
}

#[test]
fn symbol_name_replaces_spaces_and_dashes() {
    let name = symbol_name("Deja Vu-Sans", 12);
    assert_eq!(String::from_utf8(name).unwrap(), "Deja_Vu_Sans12pt7b");
}

#[test]
fn symbol_name_keeps_other_characters() {
    let name = symbol_name("Caf\u{e9}_x", 7);
    assert_eq!(String::from_utf8(name).unwrap(), "Caf\u{e9}_x7pt7b");
}
