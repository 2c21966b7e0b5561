use lumiterm::input::{grid_size, key_bytes, paste_bytes, pixel_to_cell, shortcut, NamedKey, Shortcut};
use lumiterm::raster::{cell_origin, draw_outline, fill_all, fill_rect, in_selection, pack};

#[test]
fn pack_layout() {
    assert_eq!(pack(0x12, 0x34, 0x56), 0x0012_3456);
    assert_eq!(pack(255, 255, 255), 0x00ff_ffff);
    assert_eq!(pack(0, 0, 0), 0);
}

#[test]
fn fill_all_pixels() {
    let mut b = vec![0u32; 6];
    fill_all(&mut b, 7);
    assert_eq!(b, vec![7; 6]);
}

#[test]
fn fill_rect_paints_the_rectangle() {
    let mut b = vec![0u32; 12];
    fill_rect(&mut b, 4, 1, 1, 2, 2, 9);
    assert_eq!(b, vec![0, 0, 0, 0, 0, 9, 9, 0, 0, 9, 9, 0]);
}

#[test]
fn fill_rect_skips_past_the_end() {
    let mut b = vec![0u32; 6];
    fill_rect(&mut b, 3, 0, 1, 3, 5, 1);
    assert_eq!(b, vec![0, 0, 0, 1, 1, 1]);
}

#[test]
fn outline_of_a_box() {
    let mut b = vec![0u32; 20];
    draw_outline(&mut b, 5, 4, 1, 1, 3, 3, 1);
    let expected = vec![
        0, 0, 0, 0, 0,
        0, 1, 1, 1, 0,
        0, 1, 0, 1, 0,
        0, 1, 1, 1, 0,
    ];
    assert_eq!(b, expected);
}

#[test]
fn outline_is_clipped() {
    let mut b = vec![0u32; 9];
    draw_outline(&mut b, 3, 3, 2, 2, 2, 2, 1);
    assert_eq!(b, vec![0, 0, 0, 0, 0, 0, 0, 0, 1]);
}

#[test]
fn outline_of_an_empty_box_is_its_top_row() {
    let mut b = vec![0u32; 9];
    draw_outline(&mut b, 3, 3, 0, 1, 2, 0, 1);
    assert_eq!(b, vec![0, 0, 0, 1, 1, 0, 0, 0, 0]);
}

#[test]
fn selection_membership() {
    let sel = Some(((3, 1), (2, 3)));
    assert!(!in_selection(sel, 2, 1));
    assert!(in_selection(sel, 3, 1));
    assert!(in_selection(sel, 0, 2));
    assert!(in_selection(sel, 9, 2));
    assert!(in_selection(sel, 2, 3));
    assert!(!in_selection(sel, 3, 3));
    assert!(!in_selection(None, 0, 0));
}

#[test]
fn cell_origins() {
    assert_eq!(cell_origin(2, 1, 6, 10, 20, 100, 100), Some((26, 26)));
    assert_eq!(cell_origin(9, 0, 6, 10, 20, 100, 100), None);
    assert_eq!(cell_origin(8, 3, 6, 10, 20, 96, 86), Some((86, 66)));
    assert_eq!(cell_origin(0, 4, 6, 10, 20, 100, 100), None);
    assert_eq!(cell_origin(usize::MAX, 0, 0, 2, 2, 100, 100), None);
}

#[test]
fn pixels_to_cells() {
    assert_eq!(pixel_to_cell(0, 0, 8, 10, 20, 80, 24), (0, 0));
    assert_eq!(pixel_to_cell(37, 49, 8, 10, 20, 80, 24), (2, 2));
    assert_eq!(pixel_to_cell(10_000, 10_000, 8, 10, 20, 80, 24), (79, 23));
    assert_eq!(pixel_to_cell(30, 30, 0, 0, 0, 100, 100), (30, 30));
    assert_eq!(pixel_to_cell(30, 30, 0, 1, 1, 0, 0), (0, 0));
}

#[test]
fn grid_sizes() {
    assert_eq!(grid_size(1000, 650, 8, 9, 18), (109, 35));
    assert_eq!(grid_size(50, 30, 8, 9, 18), (10, 4));
    assert_eq!(grid_size(10, 10, 100, 9, 18), (10, 4));
}

#[test]
fn keys_to_bytes() {
    assert_eq!(key_bytes(Some(NamedKey::Enter), false, None), Some(vec![b'\r']));
    assert_eq!(key_bytes(Some(NamedKey::Backspace), false, None), Some(vec![0x7f]));
    assert_eq!(key_bytes(Some(NamedKey::Backspace), true, None), Some(vec![0x17]));
    assert_eq!(key_bytes(Some(NamedKey::Tab), false, Some("x")), Some(vec![b'\t']));
    assert_eq!(key_bytes(Some(NamedKey::Escape), false, None), Some(vec![0x1b]));
    assert_eq!(key_bytes(Some(NamedKey::ArrowUp), false, None), Some(b"\x1b[A".to_vec()));
    assert_eq!(key_bytes(Some(NamedKey::ArrowDown), false, None), Some(b"\x1b[B".to_vec()));
    assert_eq!(key_bytes(Some(NamedKey::ArrowRight), false, None), Some(b"\x1b[C".to_vec()));
    assert_eq!(key_bytes(Some(NamedKey::ArrowLeft), false, None), Some(b"\x1b[D".to_vec()));
    assert_eq!(key_bytes(Some(NamedKey::Space), false, None), Some(vec![b' ']));
    assert_eq!(key_bytes(None, false, Some("é")), Some("é".as_bytes().to_vec()));
    assert_eq!(key_bytes(None, true, None), None);
}

#[test]
fn pastes() {
    assert_eq!(paste_bytes("hi", false), b"hi".to_vec());
    assert_eq!(paste_bytes("hi", true), b"\x1b[200~hi\x1b[201~".to_vec());
    assert_eq!(paste_bytes("", true), b"\x1b[200~\x1b[201~".to_vec());
}

#[test]
fn shortcuts() {
    assert_eq!(shortcut(true, true, Some("v")), Some(Shortcut::Paste));
    assert_eq!(shortcut(true, true, Some("V")), Some(Shortcut::Paste));
    assert_eq!(shortcut(true, true, Some("C")), Some(Shortcut::Copy));
    assert_eq!(shortcut(true, false, Some("v")), None);
    assert_eq!(shortcut(false, true, Some("c")), None);
    assert_eq!(shortcut(true, true, Some("vv")), None);
    assert_eq!(shortcut(true, true, None), None);
    assert!("V".eq_ignore_ascii_case("v"));
}
