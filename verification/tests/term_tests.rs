use lumiterm::term::{Cell, Term, MAX_SCROLLBACK_LINES};

const FG: [u8; 3] = [205, 214, 244];
const BG: [u8; 3] = [30, 30, 46];

fn palette() -> [[u8; 3]; 16] {
    let mut p = [[0u8; 3]; 16];
    for (i, c) in p.iter_mut().enumerate() {
        *c = [i as u8, (i * 2) as u8, (i * 3) as u8];
    }
    p
}

fn term(cols: usize, rows: usize) -> Term {
    Term::new(cols, rows, FG, BG, palette())
}

fn blank() -> Cell {
    Cell { ch: ' ', fg: FG, bg: BG, bold: false }
}

fn write(t: &mut Term, s: &str) {
    for c in s.chars() {
        if c == '\n' {
            t.execute(b'\n');
        } else {
            t.print(c);
        }
    }
}

fn row_text(t: &Term, row: usize) -> String {
    (0..t.cols).map(|x| t.grid[row * t.cols + x].ch).collect()
}

fn csi(t: &mut Term, params: &[u16], c: char) {
    let ps: Vec<Vec<u16>> = params.iter().map(|&p| vec![p]).collect();
    t.csi_dispatch(&ps, &[], false, c);
}

#[test]
fn new_term_is_blank() {
    let t = term(4, 3);
    assert_eq!(t.grid.len(), 12);
    assert!(t.grid.iter().all(|c| *c == blank()));
    assert_eq!((t.cursor_x, t.cursor_y), (0, 0));
    assert!(t.dirty);
    assert!(t.selection.is_none());
    assert!(t.scrollback.is_empty());
    assert_eq!(t.scroll_offset, 0);
    assert_eq!(t.fg, FG);
    assert_eq!(t.bg, BG);
}

#[test]
fn default_cell_colors() {
    let c = Cell::default();
    assert_eq!(c, Cell { ch: ' ', fg: [205, 214, 244], bg: [30, 30, 46], bold: false });
}

#[test]
fn print_writes_in_pen_and_advances() {
    let mut t = term(4, 2);
    t.print('a');
    assert_eq!(t.grid[0], Cell { ch: 'a', fg: FG, bg: BG, bold: false });
    assert_eq!(t.cursor_x, 1);
}

#[test]
fn print_wraps_after_last_column() {
    let mut t = term(3, 2);
    write(&mut t, "abcd");
    assert_eq!(row_text(&t, 0), "abc");
    assert_eq!(row_text(&t, 1), "d  ");
    assert_eq!((t.cursor_x, t.cursor_y), (1, 1));
}

#[test]
fn pending_wrap_keeps_cursor_past_last_column() {
    let mut t = term(3, 2);
    write(&mut t, "abc");
    assert_eq!((t.cursor_x, t.cursor_y), (3, 0));
}

#[test]
fn newline_at_bottom_scrolls_into_history() {
    let mut t = term(3, 2);
    write(&mut t, "ab\ncd\nef");
    assert_eq!(row_text(&t, 0), "cd ");
    assert_eq!(row_text(&t, 1), "ef ");
    assert_eq!(t.scrollback.len(), 1);
    let top: String = t.scrollback[0].iter().map(|c| c.ch).collect();
    assert_eq!(top, "ab ");
}

#[test]
fn history_is_capped() {
    let mut t = term(2, 1);
    for i in 0..(MAX_SCROLLBACK_LINES + 7) {
        t.print(char::from(b'a' + (i % 26) as u8));
        t.execute(b'\n');
    }
    assert_eq!(t.scrollback.len(), MAX_SCROLLBACK_LINES);
    // the oldest rows were dropped: the newest row is the last one written
    let last = (MAX_SCROLLBACK_LINES + 6) % 26;
    assert_eq!(t.scrollback[MAX_SCROLLBACK_LINES - 1][0].ch, char::from(b'a' + last as u8));
    assert_eq!(t.scrollback[0][0].ch, char::from(b'a' + 7 % 26));
}

#[test]
fn carriage_return_backspace_and_tab() {
    let mut t = term(20, 2);
    write(&mut t, "abc");
    t.execute(0x08);
    assert_eq!(t.cursor_x, 2);
    t.execute(b'\r');
    assert_eq!(t.cursor_x, 0);
    t.execute(0x08);
    assert_eq!(t.cursor_x, 0);
    t.execute(b'\t');
    assert_eq!(t.cursor_x, 8);
    t.execute(b'\t');
    assert_eq!(t.cursor_x, 16);
    t.execute(b'\t');
    assert_eq!(t.cursor_x, 19);
    t.execute(0x07);
    assert_eq!(t.cursor_x, 19);
}

#[test]
fn line_feed_returns_to_column_zero() {
    let mut t = term(5, 3);
    write(&mut t, "ab");
    t.execute(b'\n');
    assert_eq!((t.cursor_x, t.cursor_y), (0, 1));
}

#[test]
fn cursor_movement_clamps() {
    let mut t = term(10, 5);
    csi(&mut t, &[3], 'B');
    assert_eq!(t.cursor_y, 3);
    csi(&mut t, &[9], 'B');
    assert_eq!(t.cursor_y, 4);
    csi(&mut t, &[2], 'A');
    assert_eq!(t.cursor_y, 2);
    csi(&mut t, &[9], 'A');
    assert_eq!(t.cursor_y, 0);
    csi(&mut t, &[0], 'C');
    assert_eq!(t.cursor_x, 1);
    csi(&mut t, &[], 'C');
    assert_eq!(t.cursor_x, 2);
    csi(&mut t, &[50], 'C');
    assert_eq!(t.cursor_x, 9);
    csi(&mut t, &[4], 'D');
    assert_eq!(t.cursor_x, 5);
    csi(&mut t, &[3, 7], 'H');
    assert_eq!((t.cursor_x, t.cursor_y), (6, 2));
    csi(&mut t, &[], 'f');
    assert_eq!((t.cursor_x, t.cursor_y), (0, 0));
    csi(&mut t, &[99, 99], 'H');
    assert_eq!((t.cursor_x, t.cursor_y), (9, 4));
}

#[test]
fn erase_in_display_modes() {
    let mut t = term(3, 2);
    write(&mut t, "abcdef");
    csi(&mut t, &[2, 2], 'H');
    csi(&mut t, &[], 'J');
    assert_eq!(row_text(&t, 0), "abc");
    assert_eq!(row_text(&t, 1), "d  ");

    let mut t = term(3, 2);
    write(&mut t, "abcdef");
    csi(&mut t, &[2, 2], 'H');
    csi(&mut t, &[1], 'J');
    assert_eq!(row_text(&t, 0), "   ");
    assert_eq!(row_text(&t, 1), "  f");

    let mut t = term(3, 2);
    write(&mut t, "abcdef");
    csi(&mut t, &[2], 'J');
    assert!(t.grid.iter().all(|c| *c == blank()));

    let mut t = term(3, 2);
    write(&mut t, "abcdef");
    csi(&mut t, &[7], 'J');
    assert_eq!(row_text(&t, 0), "abc");
}

#[test]
fn erase_in_line_modes() {
    let mut t = term(4, 2);
    write(&mut t, "abcdefgh");
    csi(&mut t, &[1, 2], 'H');
    csi(&mut t, &[0], 'K');
    assert_eq!(row_text(&t, 0), "a   ");
    assert_eq!(row_text(&t, 1), "efgh");

    let mut t = term(4, 2);
    write(&mut t, "abcdefgh");
    csi(&mut t, &[2, 3], 'H');
    csi(&mut t, &[1], 'K');
    assert_eq!(row_text(&t, 0), "abcd");
    assert_eq!(row_text(&t, 1), "   h");

    let mut t = term(4, 2);
    write(&mut t, "abcdefgh");
    csi(&mut t, &[2, 1], 'H');
    csi(&mut t, &[2], 'K');
    assert_eq!(row_text(&t, 1), "    ");
    assert_eq!(row_text(&t, 0), "abcd");
}

#[test]
fn sgr_sets_and_resets_pen() {
    let mut t = term(4, 2);
    csi(&mut t, &[1, 31, 42], 'm');
    assert!(t.bold);
    assert_eq!(t.fg, palette()[1]);
    assert_eq!(t.bg, palette()[2]);
    csi(&mut t, &[93, 104], 'm');
    assert_eq!(t.fg, palette()[11]);
    assert_eq!(t.bg, palette()[12]);
    csi(&mut t, &[22, 39], 'm');
    assert!(!t.bold);
    assert_eq!(t.fg, FG);
    csi(&mut t, &[49], 'm');
    assert_eq!(t.bg, BG);
    csi(&mut t, &[1, 31], 'm');
    csi(&mut t, &[], 'm');
    assert!(!t.bold);
    assert_eq!(t.fg, FG);
    assert_eq!(t.bg, BG);
}

#[test]
fn sgr_256_colors() {
    let mut t = term(4, 2);
    csi(&mut t, &[38, 5, 3], 'm');
    assert_eq!(t.fg, palette()[3]);
    csi(&mut t, &[38, 5, 16], 'm');
    assert_eq!(t.fg, [0, 0, 0]);
    csi(&mut t, &[48, 5, 196], 'm');
    assert_eq!(t.bg, [255, 0, 0]);
    csi(&mut t, &[38, 5, 110], 'm');
    // 110 - 16 = 94 = 2*36 + 3*6 + 4
    assert_eq!(t.fg, [135, 175, 215]);
    csi(&mut t, &[38, 5, 232], 'm');
    assert_eq!(t.fg, [8, 8, 8]);
    csi(&mut t, &[38, 5, 255], 'm');
    assert_eq!(t.fg, [238, 238, 238]);
    csi(&mut t, &[38, 5, 257], 'm');
    // the grey ramp wraps in 8-bit arithmetic past its end: 25 * 10 + 8 = 258
    assert_eq!(t.fg, [2, 2, 2]);
}

#[test]
fn sgr_true_color_and_incomplete() {
    let mut t = term(4, 2);
    csi(&mut t, &[38, 2, 10, 20, 300], 'm');
    assert_eq!(t.fg, [10, 20, 44]);
    csi(&mut t, &[48, 2, 1, 2], 'm');
    assert_eq!(t.bg, BG);
    csi(&mut t, &[38, 2, 1, 2, 3, 1], 'm');
    assert_eq!(t.fg, [1, 2, 3]);
    assert!(t.bold);
    csi(&mut t, &[38], 'm');
    assert_eq!(t.fg, [1, 2, 3]);
}

#[test]
fn sgr_empty_subparameter_counts_as_zero() {
    let mut t = term(4, 2);
    t.csi_dispatch(&[vec![1]], &[], false, 'm');
    assert!(t.bold);
    t.csi_dispatch(&[vec![]], &[], false, 'm');
    assert!(!t.bold);
}

#[test]
fn device_queries_are_answered() {
    let mut t = term(10, 5);
    csi(&mut t, &[], 'c');
    assert_eq!(t.response_queue, b"\x1b[?6c".to_vec());
    t.response_queue.clear();
    csi(&mut t, &[5], 'n');
    assert_eq!(t.response_queue, b"\x1b[0n".to_vec());
    t.response_queue.clear();
    csi(&mut t, &[3, 5], 'H');
    csi(&mut t, &[6], 'n');
    assert_eq!(t.response_queue, b"\x1b[3;5R".to_vec());
    t.response_queue.clear();
    csi(&mut t, &[7], 'n');
    assert!(t.response_queue.is_empty());
}

#[test]
fn cursor_report_with_two_digits() {
    let mut t = term(40, 20);
    csi(&mut t, &[12, 31], 'H');
    csi(&mut t, &[6], 'n');
    assert_eq!(t.response_queue, b"\x1b[12;31R".to_vec());
}

#[test]
fn bracketed_paste_mode() {
    let mut t = term(10, 5);
    t.csi_dispatch(&[vec![2004]], b"?", false, 'h');
    assert!(t.bracketed_paste);
    t.csi_dispatch(&[vec![2004]], b"", false, 'l');
    assert!(t.bracketed_paste);
    t.csi_dispatch(&[vec![25]], b"?", false, 'l');
    assert!(t.bracketed_paste);
    t.csi_dispatch(&[vec![2004]], b"?", false, 'l');
    assert!(!t.bracketed_paste);
}

#[test]
fn full_reset() {
    let mut t = term(3, 2);
    csi(&mut t, &[1, 31], 'm');
    write(&mut t, "abcd");
    t.esc_dispatch(&[], false, b'c');
    assert!(t.grid.iter().all(|c| *c == blank()));
    assert_eq!((t.cursor_x, t.cursor_y), (0, 0));
    assert_eq!(t.fg, FG);
    assert_eq!(t.bg, BG);
    // the reset leaves bold as it was
    assert!(t.bold);
    t.dirty = false;
    t.esc_dispatch(&[], false, b'7');
    assert!(!t.dirty);
}

#[test]
fn unknown_sequences_only_mark_dirty() {
    let mut t = term(3, 2);
    write(&mut t, "ab");
    t.dirty = false;
    csi(&mut t, &[1], 'z');
    assert!(t.dirty);
    assert_eq!(row_text(&t, 0), "ab ");
}

#[test]
fn selection_range_orders_ends() {
    let mut t = term(10, 5);
    t.selection = Some(((5, 2), (1, 1)));
    assert_eq!(t.selection_range(), Some(((1, 1), (5, 2))));
    t.selection = Some(((1, 1), (5, 2)));
    assert_eq!(t.selection_range(), Some(((1, 1), (5, 2))));
    t.selection = Some(((7, 3), (2, 3)));
    assert_eq!(t.selection_range(), Some(((2, 3), (7, 3))));
    t.selection = None;
    assert_eq!(t.selection_range(), None);
}

#[test]
fn selected_text_trims_and_joins() {
    let mut t = term(5, 3);
    write(&mut t, "ab\ncd e\nfgh");
    t.selection = Some(((1, 0), (1, 2)));
    assert_eq!(t.selected_text(), Some("b\ncd e\nfg".to_string()));
    t.selection = Some(((3, 1), (0, 0)));
    assert_eq!(t.selected_text(), Some("ab\ncd e".to_string()));
    t.selection = Some(((4, 0), (4, 0)));
    assert_eq!(t.selected_text(), Some(String::new()));
    t.clear_selection();
    assert_eq!(t.selected_text(), None);
    assert!(t.selection.is_none());
}

#[test]
fn selected_text_beyond_grid() {
    let mut t = term(3, 2);
    write(&mut t, "abc");
    t.selection = Some(((1, 0), (9, 3)));
    assert_eq!(t.selected_text(), Some("bc\n\n\n".to_string()));
}

#[test]
fn mouse_selection() {
    let mut t = term(10, 5);
    t.extend_selection((3, 3));
    assert!(t.selection.is_none());
    t.begin_selection((4, 1));
    assert_eq!(t.selection, Some(((4, 1), (4, 1))));
    t.extend_selection((2, 0));
    assert_eq!(t.selection, Some(((4, 1), (2, 0))));
    assert_eq!(t.selection_range(), Some(((2, 0), (4, 1))));
}

#[test]
fn scrolling_the_view() {
    let mut t = term(2, 1);
    for c in "abcd".chars() {
        t.print(c);
        t.execute(b'\n');
    }
    assert_eq!(t.scrollback.len(), 4);
    t.scroll_up(2);
    assert_eq!(t.scroll_offset, 2);
    t.scroll_up(10);
    assert_eq!(t.scroll_offset, 4);
    t.scroll_down(1);
    assert_eq!(t.scroll_offset, 3);
    t.scroll_down(10);
    assert_eq!(t.scroll_offset, 0);
    t.scroll_up(2);
    t.scroll_down(2);
    assert_eq!(t.scroll_offset, 0);
    t.scroll_up(3);
    t.dirty = false;
    t.scroll_reset();
    assert_eq!(t.scroll_offset, 0);
    assert!(t.dirty);
    t.dirty = false;
    t.scroll_reset();
    assert!(!t.dirty);
    t.scroll_lines(2);
    assert_eq!(t.scroll_offset, 2);
    t.scroll_lines(-1);
    assert_eq!(t.scroll_offset, 1);
    t.scroll_lines(0);
    assert_eq!(t.scroll_offset, 1);
    t.scroll_lines(i32::MIN);
    assert_eq!(t.scroll_offset, 0);
}

#[test]
fn visible_cell_follows_the_view() {
    let mut t = term(2, 2);
    write(&mut t, "ab\ncd\nef");
    // history: "ab", grid: "cd", "ef"
    assert_eq!(t.visible_cell(0, 0).ch, 'c');
    assert_eq!(t.visible_cell(1, 1).ch, 'f');
    assert_eq!(t.visible_cell(5, 5), blank());
    t.scroll_up(1);
    assert_eq!(t.visible_cell(0, 0).ch, 'a');
    assert_eq!(t.visible_cell(1, 1).ch, 'd');
    assert_eq!(t.visible_cell(9, 0), blank());
    assert_eq!(t.visible_cell(0, 9), blank());
}

#[test]
fn resize_keeps_top_left() {
    let mut t = term(3, 2);
    write(&mut t, "abcdef");
    t.resize(2, 3);
    assert_eq!((t.cols, t.rows), (2, 3));
    assert_eq!(t.grid.len(), 6);
    assert_eq!(row_text(&t, 0), "ab");
    assert_eq!(row_text(&t, 1), "de");
    assert_eq!(row_text(&t, 2), "  ");
    assert_eq!((t.cursor_x, t.cursor_y), (1, 1));
    t.resize(4, 1);
    assert_eq!(row_text(&t, 0), "ab  ");
    assert_eq!(t.cursor_y, 0);
}

#[test]
fn resize_to_same_size_changes_nothing() {
    let mut t = term(3, 2);
    write(&mut t, "ab");
    t.dirty = false;
    t.resize(3, 2);
    assert!(!t.dirty);
    assert_eq!(row_text(&t, 0), "ab ");
}

#[test]
fn resize_to_nothing() {
    let mut t = term(3, 2);
    write(&mut t, "ab");
    t.resize(0, 0);
    assert_eq!(t.grid.len(), 0);
    assert_eq!((t.cursor_x, t.cursor_y), (0, 0));
    t.execute(b'\r');
    t.execute(0x08);
    csi(&mut t, &[2], 'J');
}
