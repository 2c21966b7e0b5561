//! What the window's input becomes: grid positions for the mouse, bytes for
//! the keyboard and for pastes, the grid size for the window size.

use vstd::prelude::*;
use vstd::utf8::encode_utf8;
use crate::text::chars_of;

verus! {

/// `a - b`, stopping at 0.
pub open spec fn sat_sub_int(a: int, b: int) -> int {
    if a >= b {
        a - b
    } else {
        0
    }
}

/// `v`, but at most `limit`.
pub open spec fn clamp_to(v: int, limit: int) -> int {
    if v <= limit {
        v
    } else {
        limit
    }
}

/// The grid cell `(col, row)` under pixel `(x, y)`, clamped to a grid of
/// `cols x rows` cells; a cell size of 0 counts as 1.
pub open spec fn pixel_cell(
    x: int,
    y: int,
    padding: int,
    cell_w: int,
    cell_h: int,
    cols: int,
    rows: int,
) -> (int, int) {
    let cw = if cell_w >= 1 {
        cell_w
    } else {
        1
    };
    let ch = if cell_h >= 1 {
        cell_h
    } else {
        1
    };
    (
        clamp_to(sat_sub_int(x, padding) / cw, sat_sub_int(cols, 1)),
        clamp_to(sat_sub_int(y, padding) / ch, sat_sub_int(rows, 1)),
    )
}

/// Converts a pixel position in the window to the grid cell under it,
/// clamped to the grid.
pub fn pixel_to_cell(
    x: usize,
    y: usize,
    padding: usize,
    cell_w: usize,
    cell_h: usize,
    cols: usize,
    rows: usize,
) -> (r: (usize, usize))
    ensures
        (r.0 as int, r.1 as int) == pixel_cell(
            x as int,
            y as int,
            padding as int,
            cell_w as int,
            cell_h as int,
            cols as int,
            rows as int,
        ),
{
    let cw = if cell_w >= 1 { cell_w } else { 1 };
    let ch = if cell_h >= 1 { cell_h } else { 1 };
    let col = x.saturating_sub(padding) / cw;
    let row = y.saturating_sub(padding) / ch;
    let max_col = cols.saturating_sub(1);
    let max_row = rows.saturating_sub(1);
    (if col <= max_col { col } else { max_col }, if row <= max_row { row } else { max_row })
}

/// The cell under any pixel lies on the grid.
pub proof fn lemma_pixel_cell_on_grid(
    x: int,
    y: int,
    padding: int,
    cell_w: int,
    cell_h: int,
    cols: int,
    rows: int,
)
    requires
        0 <= x,
        0 <= y,
        0 <= padding,
        cols > 0,
        rows > 0,
    ensures
        0 <= pixel_cell(x, y, padding, cell_w, cell_h, cols, rows).0 < cols,
        0 <= pixel_cell(x, y, padding, cell_w, cell_h, cols, rows).1 < rows,
{
    let cw = if cell_w >= 1 {
        cell_w
    } else {
        1
    };
    let ch = if cell_h >= 1 {
        cell_h
    } else {
        1
    };
    assert(sat_sub_int(x, padding) / cw >= 0) by (nonlinear_arith)
        requires
            sat_sub_int(x, padding) >= 0,
            cw >= 1,
    ;
    assert(sat_sub_int(y, padding) / ch >= 0) by (nonlinear_arith)
        requires
            sat_sub_int(y, padding) >= 0,
            ch >= 1,
    ;
}

/// How many cells of `cell` pixels fit in `extent` pixels less a padding on
/// both sides, but at least `min`.
pub open spec fn cells_fitting(extent: int, padding: int, cell: int, min: int) -> int {
    let n = sat_sub_int(extent, 2 * padding) / cell;
    if n >= min {
        n
    } else {
        min
    }
}

/// The grid size for a window: the cells that fit inside the padding, but at
/// least 10 columns and 4 rows.
pub fn grid_size(width: usize, height: usize, padding: usize, cell_w: usize, cell_h: usize) -> (r: (
    usize,
    usize,
))
    requires
        cell_w > 0,
        cell_h > 0,
    ensures
        r.0 == cells_fitting(width as int, padding as int, cell_w as int, 10),
        r.1 == cells_fitting(height as int, padding as int, cell_h as int, 4),
{
    let cols = width.saturating_sub(padding).saturating_sub(padding) / cell_w;
    let rows = height.saturating_sub(padding).saturating_sub(padding) / cell_h;
    (if cols >= 10 { cols } else { 10 }, if rows >= 4 { rows } else { 4 })
}

/// Keys that send fixed bytes.
#[derive(Clone, Copy, Debug, PartialEq, Eq)]
pub enum NamedKey {
    Enter,
    Backspace,
    Tab,
    Escape,
    ArrowUp,
    ArrowDown,
    ArrowRight,
    ArrowLeft,
    Space,
}

/// The bytes a named key sends; with Control held, Backspace sends Ctrl+W
/// (delete the previous word in shells' line editors).
pub open spec fn named_key_bytes(key: NamedKey, ctrl: bool) -> Seq<u8> {
    match key {
        NamedKey::Enter => seq![0x0du8],
        NamedKey::Backspace => if ctrl {
            seq![0x17u8]
        } else {
            seq![0x7fu8]
        },
        NamedKey::Tab => seq![0x09u8],
        NamedKey::Escape => seq![0x1bu8],
        NamedKey::ArrowUp => seq![0x1bu8, 0x5b, 0x41],
        NamedKey::ArrowDown => seq![0x1bu8, 0x5b, 0x42],
        NamedKey::ArrowRight => seq![0x1bu8, 0x5b, 0x43],
        NamedKey::ArrowLeft => seq![0x1bu8, 0x5b, 0x44],
        NamedKey::Space => seq![0x20u8],
    }
}

/// The bytes a key press sends to the program: the named key's sequence,
/// else the UTF-8 of the text the key produced, else nothing.
pub fn key_bytes(key: Option<NamedKey>, ctrl: bool, text: Option<&str>) -> (r: Option<Vec<u8>>)
    ensures
        match key {
            Some(k) => r is Some && r.unwrap()@ == named_key_bytes(k, ctrl),
            None => match text {
                Some(t) => r is Some && r.unwrap()@ == encode_utf8(t@),
                None => r is None,
            },
        },
{
    match key {
        Some(k) => {
            let v = match k {
                NamedKey::Enter => vec![0x0d],
                NamedKey::Backspace => if ctrl {
                    vec![0x17]
                } else {
                    vec![0x7f]
                },
                NamedKey::Tab => vec![0x09],
                NamedKey::Escape => vec![0x1b],
                NamedKey::ArrowUp => vec![0x1b, 0x5b, 0x41],
                NamedKey::ArrowDown => vec![0x1b, 0x5b, 0x42],
                NamedKey::ArrowRight => vec![0x1b, 0x5b, 0x43],
                NamedKey::ArrowLeft => vec![0x1b, 0x5b, 0x44],
                NamedKey::Space => vec![0x20],
            };
            assert(v@ =~= named_key_bytes(k, ctrl));
            Some(v)
        },
        None => match text {
            Some(t) => Some(vstd::slice::slice_to_vec(t.as_bytes())),
            None => None,
        },
    }
}

/// The start and end markers of a bracketed paste, `ESC [ 200 ~` and
/// `ESC [ 201 ~`.
pub open spec fn paste_start() -> Seq<u8> {
    seq![0x1bu8, 0x5b, 0x32, 0x30, 0x30, 0x7e]
}

pub open spec fn paste_end() -> Seq<u8> {
    seq![0x1bu8, 0x5b, 0x32, 0x30, 0x31, 0x7e]
}

/// The bytes a paste sends: the text, between the bracketed-paste markers
/// when the program asked for them.
pub open spec fn paste_payload(text: Seq<char>, bracketed: bool) -> Seq<u8> {
    if bracketed {
        paste_start() + encode_utf8(text) + paste_end()
    } else {
        encode_utf8(text)
    }
}

fn push_all(out: &mut Vec<u8>, bytes: &[u8])
    ensures
        final(out)@ == old(out)@ + bytes@,
{
    let ghost o0 = out@;
    let mut i: usize = 0;
    while i < bytes.len()
        invariant
            i <= bytes@.len(),
            out@ == o0 + bytes@.subrange(0, i as int),
        decreases bytes@.len() - i,
    {
        out.push(bytes[i]);
        i = i + 1;
        assert(out@ =~= o0 + bytes@.subrange(0, i as int));
    }
    assert(bytes@.subrange(0, bytes@.len() as int) =~= bytes@);
}

/// Builds the bytes that pasting `text` sends.
pub fn paste_bytes(text: &str, bracketed: bool) -> (r: Vec<u8>)
    ensures
        r@ == paste_payload(text@, bracketed),
{
    let mut out: Vec<u8> = Vec::new();
    if bracketed {
        let start = [0x1bu8, 0x5b, 0x32, 0x30, 0x30, 0x7e];
        push_all(&mut out, &start);
        assert(out@ =~= paste_start());
    }
    push_all(&mut out, text.as_bytes());
    if bracketed {
        let end = [0x1bu8, 0x5b, 0x32, 0x30, 0x31, 0x7e];
        push_all(&mut out, &end);
        assert(out@ =~= paste_start() + encode_utf8(text@) + paste_end());
    } else {
        assert(out@ =~= encode_utf8(text@));
    }
    out
}

/// Keyboard shortcuts of the terminal itself.
#[derive(Clone, Copy, Debug, PartialEq, Eq)]
pub enum Shortcut {
    Paste,
    Copy,
}

/// `s` is the single letter given in lower and upper case.
pub open spec fn is_letter(s: Seq<char>, lower: char, upper: char) -> bool {
    s == seq![lower] || s == seq![upper]
}

/// The shortcut a key press makes: with Control and Shift held, `v` pastes
/// and `c` copies, in either case.
pub open spec fn shortcut_of(ctrl: bool, shift: bool, key_text: Option<Seq<char>>) -> Option<Shortcut> {
    if ctrl && shift {
        match key_text {
            Some(t) => if is_letter(t, 'v', 'V') {
                Some(Shortcut::Paste)
            } else if is_letter(t, 'c', 'C') {
                Some(Shortcut::Copy)
            } else {
                None
            },
            None => None,
        }
    } else {
        None
    }
}

/// Recognises the copy and paste shortcuts.
pub fn shortcut(ctrl: bool, shift: bool, key_text: Option<&str>) -> (r: Option<Shortcut>)
    ensures
        r == shortcut_of(
            ctrl,
            shift,
            match key_text {
                Some(t) => Some(t@),
                None => None,
            },
        ),
{
    if !(ctrl && shift) {
        return None;
    }
    match key_text {
        None => None,
        Some(t) => {
            let cs = chars_of(t);
            if cs.len() == 1 && (cs[0] == 'v' || cs[0] == 'V') {
                assert(t@ =~= seq![cs[0]]);
                Some(Shortcut::Paste)
            } else if cs.len() == 1 && (cs[0] == 'c' || cs[0] == 'C') {
                assert(t@ =~= seq![cs[0]]);
                Some(Shortcut::Copy)
            } else {
                assert(!is_letter(t@, 'v', 'V')) by {
                    if t@ == seq!['v'] || t@ == seq!['V'] {
                        assert(cs@.len() == 1);
                    }
                }
                assert(!is_letter(t@, 'c', 'C')) by {
                    if t@ == seq!['c'] || t@ == seq!['C'] {
                        assert(cs@.len() == 1);
                    }
                }
                None
            }
        },
    }
}

} // verus!
