//! The terminal state: a row-major grid of cells, the cursor and pen, the
//! scrollback history and the mouse selection, together with the operations
//! that escape sequences and the user drive.
//!
//! Every operation is stated against `TermView`, the mathematical picture of
//! a `Term`: `final(t)@ == old(t)@.op(..)`.

use vstd::prelude::*;
use crate::text::{trim_end, trimmed_end_len, push_char, push_chars};


verus! {

/// How many rows of history are kept above the visible grid.
pub const MAX_SCROLLBACK_LINES: usize = 5000;

/// One character cell of the grid.
#[derive(Debug, Clone, Copy, PartialEq)]
pub struct Cell {
    pub ch: char,
    pub fg: [u8; 3],
    pub bg: [u8; 3],
    pub bold: bool,
}

pub open spec fn default_cell() -> Cell {
    Cell { ch: ' ', fg: [205, 214, 244], bg: [30, 30, 46], bold: false }
}

impl Default for Cell {
    fn default() -> (c: Cell)
        ensures
            c == default_cell(),
    {
        Cell { ch: ' ', fg: [205, 214, 244], bg: [30, 30, 46], bold: false }
    }
}

/// A blank cell in the given colours.
pub open spec fn blank_cell(fg: [u8; 3], bg: [u8; 3]) -> Cell {
    Cell { ch: ' ', fg, bg, bold: false }
}

/// `n` copies of `c`.
pub open spec fn repeat_cell(c: Cell, n: nat) -> Seq<Cell> {
    Seq::new(n, |i: int| c)
}

/// `g` with the positions in `[from, to)` replaced by `c`.
pub open spec fn fill(g: Seq<Cell>, from: int, to: int, c: Cell) -> Seq<Cell> {
    Seq::new(g.len(), |i: int| if from <= i < to { c } else { g[i] })
}

/// History after `row` has been added at the bottom: the newest
/// `MAX_SCROLLBACK_LINES` rows.
pub open spec fn capped_push(sb: Seq<Seq<Cell>>, row: Seq<Cell>) -> Seq<Seq<Cell>> {
    let s = sb.push(row);
    if s.len() > MAX_SCROLLBACK_LINES {
        s.subrange(s.len() - MAX_SCROLLBACK_LINES, s.len() as int)
    } else {
        s
    }
}

/// Reading-order comparison of two `(col, row)` positions: row first.
pub open spec fn pos_le(a: (usize, usize), b: (usize, usize)) -> bool {
    a.1 < b.1 || (a.1 == b.1 && a.0 <= b.0)
}

/// A selection with its two ends put in reading order.
pub open spec fn ordered_selection(sel: Option<((usize, usize), (usize, usize))>) -> Option<
    ((usize, usize), (usize, usize)),
> {
    match sel {
        None => None,
        Some((a, b)) => if pos_le(a, b) {
            Some((a, b))
        } else {
            Some((b, a))
        },
    }
}

/// The component levels of xterm's 6x6x6 colour cube.
pub open spec fn cube_level(k: int) -> u8 {
    if k == 0 {
        0
    } else if k == 1 {
        95
    } else if k == 2 {
        135
    } else if k == 3 {
        175
    } else if k == 4 {
        215
    } else {
        255
    }
}

/// The grey level of entry `idx` (at least 232) of the 256-colour table,
/// in 8-bit arithmetic that wraps.
pub open spec fn gray_level(idx: u16) -> u8 {
    let t = (idx - 232) as u8;
    ((t as int * 10 + 8) % 256) as u8
}

/// Parameter `n` of a control sequence: the first value of the `n`-th
/// parameter, or `default` when there is none.
pub open spec fn param(ps: Seq<Seq<u16>>, n: int, default: u16) -> u16 {
    if 0 <= n < ps.len() && ps[n].len() > 0 {
        ps[n][0]
    } else {
        default
    }
}

/// A count parameter: at least one.
pub open spec fn count_param(ps: Seq<Seq<u16>>, n: int) -> nat {
    let v = param(ps, n, 1);
    if v >= 1 {
        v as nat
    } else {
        1
    }
}

/// The codes of a select-graphic-rendition sequence: the first value of
/// each parameter (0 where it has none), or a single 0 when there are no
/// parameters.
pub open spec fn sgr_codes(ps: Seq<Seq<u16>>) -> Seq<u16> {
    if ps.len() == 0 {
        seq![0u16]
    } else {
        Seq::new(ps.len(), |i: int| param(ps, i, 0))
    }
}

/// The decimal digits of `n` in ASCII.
pub open spec fn decimal(n: nat) -> Seq<u8>
    decreases n,
{
    if n < 10 {
        seq![(48 + n) as u8]
    } else {
        decimal(n / 10).push((48 + n % 10) as u8)
    }
}

/// `cur - n`, stopping at 0.
pub open spec fn sat_sub(cur: nat, n: nat) -> nat {
    if cur >= n {
        (cur - n) as nat
    } else {
        0
    }
}

/// `v`, but at most `limit`.
pub open spec fn at_most(v: nat, limit: nat) -> nat {
    if v <= limit {
        v
    } else {
        limit
    }
}

/// The answer to a primary device attributes query: `ESC [ ? 6 c`.
pub open spec fn device_attributes_reply() -> Seq<u8> {
    seq![0x1bu8, 0x5b, 0x3f, 0x36, 0x63]
}

/// The answer to a status query: `ESC [ 0 n`.
pub open spec fn status_ok_reply() -> Seq<u8> {
    seq![0x1bu8, 0x5b, 0x30, 0x6e]
}

/// The cursor position report `ESC [ row ; col R`, both counted from 1.
pub open spec fn cursor_report(x: nat, y: nat) -> Seq<u8> {
    seq![0x1bu8, 0x5b] + decimal(y + 1) + seq![0x3bu8] + decimal(x + 1) + seq![0x52u8]
}

/// Control-sequence parameters, each as its sequence of values.
pub open spec fn params_view(ps: Seq<Vec<u16>>) -> Seq<Seq<u16>> {
    ps.map_values(|p: Vec<u16>| p@)
}

/// The rows of a history, each as its sequence of cells.
pub open spec fn rows_view(sb: Seq<Vec<Cell>>) -> Seq<Seq<Cell>> {
    sb.map_values(|r: Vec<Cell>| r@)
}

/// The mathematical picture of a `Term`.
#[verifier::ext_equal]
pub struct TermView {
    pub cols: nat,
    pub rows: nat,
    pub grid: Seq<Cell>,
    pub cursor_x: nat,
    pub cursor_y: nat,
    pub fg: [u8; 3],
    pub bg: [u8; 3],
    pub default_fg: [u8; 3],
    pub default_bg: [u8; 3],
    pub bold: bool,
    pub palette: [[u8; 3]; 16],
    pub dirty: bool,
    pub response_queue: Seq<u8>,
    pub selection: Option<((usize, usize), (usize, usize))>,
    pub bracketed_paste: bool,
    pub scrollback: Seq<Seq<Cell>>,
    pub scroll_offset: nat,
}

impl TermView {
    /// A blank cell in the default colours.
    pub open spec fn blank(self) -> Cell {
        blank_cell(self.default_fg, self.default_bg)
    }

    /// A cell holding `c` in the current pen.
    pub open spec fn pen(self, c: char) -> Cell {
        Cell { ch: c, fg: self.fg, bg: self.bg, bold: self.bold }
    }

    /// Index of `(x, y)` in the row-major grid.
    pub open spec fn index(self, x: int, y: int) -> int {
        y * self.cols + x
    }

    /// The cell at `(x, y)`.
    pub open spec fn cell(self, x: int, y: int) -> Cell {
        self.grid[self.index(x, y)]
    }

    /// Well-formedness: the grid holds `cols * rows` cells, the cursor is
    /// on the grid (its column may be one past the last, a pending wrap),
    /// the view offset points into the history, and the history is capped.
    pub open spec fn wf(self) -> bool {
        &&& self.grid.len() == self.cols * self.rows
        &&& self.cursor_x <= self.cols
        &&& if self.rows > 0 {
            self.cursor_y < self.rows
        } else {
            self.cursor_y == 0
        }
        &&& self.scroll_offset <= self.scrollback.len()
        &&& self.scrollback.len() <= MAX_SCROLLBACK_LINES
    }

    pub open spec fn initial(
        cols: nat,
        rows: nat,
        default_fg: [u8; 3],
        default_bg: [u8; 3],
        palette: [[u8; 3]; 16],
    ) -> TermView {
        TermView {
            cols,
            rows,
            grid: repeat_cell(blank_cell(default_fg, default_bg), cols * rows),
            cursor_x: 0,
            cursor_y: 0,
            fg: default_fg,
            bg: default_bg,
            default_fg,
            default_bg,
            bold: false,
            palette,
            dirty: true,
            response_queue: Seq::empty(),
            selection: None,
            bracketed_paste: false,
            scrollback: Seq::empty(),
            scroll_offset: 0,
        }
    }

    /// The view moved `lines` further back into history, as far as it goes.
    pub open spec fn scroll_up(self, lines: nat) -> TermView {
        let o = self.scroll_offset + lines;
        TermView {
            scroll_offset: if o <= self.scrollback.len() {
                o
            } else {
                self.scrollback.len()
            },
            dirty: true,
            ..self
        }
    }

    /// The view moved `lines` towards the live grid, stopping there.
    pub open spec fn scroll_down(self, lines: nat) -> TermView {
        TermView {
            scroll_offset: if self.scroll_offset >= lines {
                (self.scroll_offset - lines) as nat
            } else {
                0
            },
            dirty: true,
            ..self
        }
    }

    /// The view back on the live grid; nothing changes if it already was.
    pub open spec fn scroll_reset(self) -> TermView {
        if self.scroll_offset != 0 {
            TermView { scroll_offset: 0, dirty: true, ..self }
        } else {
            self
        }
    }

    pub open spec fn clear_selection(self) -> TermView {
        TermView { selection: None, dirty: true, ..self }
    }

    /// A selection started at `cell`: both ends there.
    pub open spec fn begin_selection(self, cell: (usize, usize)) -> TermView {
        TermView { selection: Some((cell, cell)), dirty: true, ..self }
    }

    /// The selection's drag end moved to `cell`; nothing changes when there
    /// is no selection.
    pub open spec fn extend_selection(self, cell: (usize, usize)) -> TermView {
        match self.selection {
            Some((start, _)) => TermView { selection: Some((start, cell)), dirty: true, ..self },
            None => self,
        }
    }

    /// The view scrolled by `lines` wheel lines: back into history when
    /// positive, towards the live grid when negative.
    pub open spec fn scroll_lines(self, lines: int) -> TermView {
        if lines > 0 {
            self.scroll_up(lines as nat)
        } else if lines < 0 {
            self.scroll_down((-lines) as nat)
        } else {
            self
        }
    }

    /// The cell drawn at `(col, row)` of the displayed view: the live grid,
    /// or, while scrolled back, the history rows followed by the grid.
    pub open spec fn visible_cell(self, col: int, row: int) -> Cell {
        if self.scroll_offset == 0 {
            let i = self.index(col, row);
            if 0 <= i < self.grid.len() {
                self.grid[i]
            } else {
                self.blank()
            }
        } else {
            let sb_len = self.scrollback.len() as int;
            let start = if sb_len >= self.scroll_offset {
                sb_len - self.scroll_offset
            } else {
                0
            };
            let k = start + row;
            if k < sb_len {
                if 0 <= col < self.scrollback[k].len() {
                    self.scrollback[k][col]
                } else {
                    self.blank()
                }
            } else {
                let grid_row = k - sb_len;
                let i = self.index(col, grid_row);
                if grid_row < self.rows && 0 <= i < self.grid.len() {
                    self.grid[i]
                } else {
                    self.blank()
                }
            }
        }
    }

    /// The grid moved up one row: the top row goes into history, a blank
    /// row comes in at the bottom.
    pub open spec fn scroll_up_one(self) -> TermView {
        let c = self.cols as int;
        TermView {
            grid: self.grid.subrange(c, self.grid.len() as int) + repeat_cell(self.blank(), self.cols),
            scrollback: capped_push(self.scrollback, self.grid.subrange(0, c)),
            ..self
        }
    }

    /// The cursor one row down, scrolling the grid when it is on the last
    /// row.
    pub open spec fn newline(self) -> TermView {
        if self.cursor_y + 1 >= self.rows {
            self.scroll_up_one()
        } else {
            TermView { cursor_y: self.cursor_y + 1, ..self }
        }
    }

    /// `c` written at the cursor in the current pen, wrapping to the next
    /// line first when the cursor is past the last column; the cursor then
    /// moves one column right.
    pub open spec fn put_char(self, c: char) -> TermView {
        let s = if self.cursor_x >= self.cols {
            TermView { cursor_x: 0, ..self }.newline()
        } else {
            self
        };
        TermView {
            grid: s.grid.update(s.index(s.cursor_x as int, s.cursor_y as int), self.pen(c)),
            cursor_x: s.cursor_x + 1,
            dirty: true,
            ..s
        }
    }
    /// Erase in display: mode 0 blanks from the cursor to the end of the
    /// grid, 1 from the start through the cursor, 2 and 3 all of it; other
    /// modes blank nothing.
    pub open spec fn erase_in_display(self, mode: u16) -> TermView {
        let len = self.grid.len() as int;
        let i = self.index(self.cursor_x as int, self.cursor_y as int);
        let g = if mode == 0 {
            fill(self.grid, i, len, self.blank())
        } else if mode == 1 {
            let end = if i < len - 1 {
                i
            } else {
                len - 1
            };
            fill(self.grid, 0, end + 1, self.blank())
        } else if mode == 2 || mode == 3 {
            fill(self.grid, 0, len, self.blank())
        } else {
            self.grid
        };
        TermView { grid: g, dirty: true, ..self }
    }

    /// The inputs on which erase in display is defined: mode 0 needs the
    /// cursor inside the grid, mode 1 a grid with a cell.
    pub open spec fn erase_in_display_ok(self, mode: u16) -> bool {
        &&& mode == 0 ==> self.index(self.cursor_x as int, self.cursor_y as int)
            <= self.grid.len()
        &&& mode == 1 ==> self.grid.len() > 0
    }

    /// Erase in line, on the cursor's row: mode 0 blanks from the cursor to
    /// the end of the row, 1 from the start through the cursor, 2 the whole
    /// row; other modes blank nothing.
    pub open spec fn erase_in_line(self, mode: u16) -> TermView {
        let base = self.index(0, self.cursor_y as int);
        let c = self.cols as int;
        let g = if mode == 0 {
            fill(self.grid, base + self.cursor_x, base + c, self.blank())
        } else if mode == 1 {
            let last = if self.cursor_x < c - 1 {
                self.cursor_x as int
            } else {
                c - 1
            };
            fill(self.grid, base, base + last + 1, self.blank())
        } else if mode == 2 {
            fill(self.grid, base, base + c, self.blank())
        } else {
            self.grid
        };
        TermView { grid: g, dirty: true, ..self }
    }

    /// The inputs on which erase in line is defined: the cells it touches
    /// must exist.
    pub open spec fn erase_in_line_ok(self, mode: u16) -> bool {
        &&& mode == 0 ==> (self.cursor_x < self.cols ==> self.rows > 0)
        &&& mode == 1 ==> self.cols > 0 && self.rows > 0
        &&& mode == 2 ==> (self.cols > 0 ==> self.rows > 0)
    }

    /// The grid at `cols x rows`: cell `(x, y)` keeps its contents where the
    /// old grid had it and is blank elsewhere; the cursor is pulled inside.
    /// Same size: nothing changes.
    pub open spec fn resize(self, cols: nat, rows: nat) -> TermView {
        if cols == self.cols && rows == self.rows {
            self
        } else {
            TermView {
                cols,
                rows,
                grid: Seq::new(
                    cols * rows,
                    |i: int|
                        {
                            let x = i % (cols as int);
                            let y = i / (cols as int);
                            if y < self.rows && x < self.cols {
                                self.cell(x, y)
                            } else {
                                self.blank()
                            }
                        },
                ),
                cursor_x: if cols == 0 {
                    0
                } else if self.cursor_x < cols - 1 {
                    self.cursor_x
                } else {
                    (cols - 1) as nat
                },
                cursor_y: if rows == 0 {
                    0
                } else if self.cursor_y < rows - 1 {
                    self.cursor_y
                } else {
                    (rows - 1) as nat
                },
                dirty: true,
                ..self
            }
        }
    }
    /// The characters of row `row` in columns `c0` through `c1`, where the
    /// grid has those cells.
    pub open spec fn row_text(self, row: int, c0: int, c1: int) -> Seq<char>
        decreases c1 - c0 + 1,
    {
        if c1 < c0 {
            Seq::empty()
        } else {
            let i = self.index(c1, row);
            self.row_text(row, c0, c1 - 1) + if 0 <= i < self.grid.len() {
                seq![self.grid[i].ch]
            } else {
                Seq::<char>::empty()
            }
        }
    }

    /// The selected part of row `row`, trailing white space dropped: from
    /// the start column on the first row (else column 0) through the end
    /// column on the last row (else the last column).
    pub open spec fn selection_line(self, start: (usize, usize), end: (usize, usize), row: int) -> Seq<char> {
        let last = if self.cols > 0 {
            self.cols - 1
        } else {
            0
        };
        let c0 = if row == start.1 {
            start.0 as int
        } else {
            0
        };
        let c1 = if row == end.1 {
            if end.0 < last {
                end.0 as int
            } else {
                last
            }
        } else {
            last
        };
        trim_end(self.row_text(row, c0, c1))
    }

    /// The selected lines from the start row through `upto`, joined by
    /// line feeds.
    pub open spec fn selection_text(self, start: (usize, usize), end: (usize, usize), upto: int) -> Seq<char>
        decreases upto - start.1,
    {
        if upto <= start.1 {
            self.selection_line(start, end, start.1 as int)
        } else {
            self.selection_text(start, end, upto - 1) + seq!['\n'] + self.selection_line(start, end, upto)
        }
    }

    /// The plain text of the selection, if there is one.
    pub open spec fn selected_text(self) -> Option<Seq<char>> {
        match ordered_selection(self.selection) {
            None => None,
            Some((s, e)) => Some(self.selection_text(s, e, e.1 as int)),
        }
    }

    /// Entry `idx` of the 256-colour table: the palette, the colour cube,
    /// then the grey ramp.
    pub open spec fn color256(self, idx: u16) -> [u8; 3] {
        if idx < 16 {
            self.palette[idx as int]
        } else if idx < 232 {
            let j = idx - 16;
            [cube_level((j / 36) % 6), cube_level((j / 6) % 6), cube_level(j % 6)]
        } else {
            let v = gray_level(idx);
            [v, v, v]
        }
    }

    /// One step of select graphic rendition at code `i`: the new pen and
    /// the position of the next code.
    pub open spec fn sgr_step(self, codes: Seq<u16>, i: int) -> (TermView, int) {
        let code = codes[i];
        if code == 0 {
            (TermView { fg: self.default_fg, bg: self.default_bg, bold: false, ..self }, i + 1)
        } else if code == 1 {
            (TermView { bold: true, ..self }, i + 1)
        } else if code == 22 {
            (TermView { bold: false, ..self }, i + 1)
        } else if code == 39 {
            (TermView { fg: self.default_fg, ..self }, i + 1)
        } else if code == 49 {
            (TermView { bg: self.default_bg, ..self }, i + 1)
        } else if 30 <= code <= 37 {
            (TermView { fg: self.palette[code - 30], ..self }, i + 1)
        } else if 40 <= code <= 47 {
            (TermView { bg: self.palette[code - 40], ..self }, i + 1)
        } else if 90 <= code <= 97 {
            (TermView { fg: self.palette[code - 90 + 8], ..self }, i + 1)
        } else if 100 <= code <= 107 {
            (TermView { bg: self.palette[code - 100 + 8], ..self }, i + 1)
        } else if code == 38 || code == 48 {
            if i + 2 < codes.len() && codes[i + 1] == 5 {
                let color = self.color256(codes[i + 2]);
                if code == 38 {
                    (TermView { fg: color, ..self }, i + 3)
                } else {
                    (TermView { bg: color, ..self }, i + 3)
                }
            } else if i + 4 < codes.len() && codes[i + 1] == 2 {
                let color = [codes[i + 2] as u8, codes[i + 3] as u8, codes[i + 4] as u8];
                if code == 38 {
                    (TermView { fg: color, ..self }, i + 5)
                } else {
                    (TermView { bg: color, ..self }, i + 5)
                }
            } else {
                (self, i + 1)
            }
        } else {
            (self, i + 1)
        }
    }

    /// Select graphic rendition applied to the codes from position `i` on.
    pub open spec fn sgr_from(self, codes: Seq<u16>, i: int) -> TermView
        decreases codes.len() - i,
    {
        if 0 <= i < codes.len() {
            let (s, j) = self.sgr_step(codes, i);
            s.sgr_from(codes, j)
        } else {
            self
        }
    }

    /// Select graphic rendition with the given parameters.
    pub open spec fn apply_sgr(self, ps: Seq<Seq<u16>>) -> TermView {
        self.sgr_from(sgr_codes(ps), 0)
    }

    /// A C0 control: line feed (to the start of the next line), carriage
    /// return, backspace, tab (to the next multiple of 8, at most the last
    /// column); others change nothing but the dirty flag.
    pub open spec fn execute(self, byte: u8) -> TermView {
        let s = if byte == 10 {
            TermView { cursor_x: 0, ..self }.newline()
        } else if byte == 13 {
            TermView { cursor_x: 0, ..self }
        } else if byte == 8 {
            TermView { cursor_x: sat_sub(self.cursor_x, 1), ..self }
        } else if byte == 9 {
            TermView {
                cursor_x: at_most((self.cursor_x / 8 + 1) * 8, (self.cols - 1) as nat),
                ..self
            }
        } else {
            self
        };
        TermView { dirty: true, ..s }
    }

    /// The inputs on which a C0 control is defined: a line feed needs a row,
    /// a tab a column.
    pub open spec fn execute_ok(self, byte: u8) -> bool {
        &&& byte == 10 ==> self.rows > 0
        &&& byte == 9 ==> self.cols > 0
    }

    /// A control sequence with final character `c`.
    pub open spec fn csi_dispatch(self, ps: Seq<Seq<u16>>, inter: Seq<u8>, c: char) -> TermView {
        let s = if c == 'A' {
            TermView { cursor_y: sat_sub(self.cursor_y, count_param(ps, 0)), ..self }
        } else if c == 'B' {
            TermView {
                cursor_y: at_most(self.cursor_y + count_param(ps, 0), (self.rows - 1) as nat),
                ..self
            }
        } else if c == 'C' {
            TermView {
                cursor_x: at_most(self.cursor_x + count_param(ps, 0), (self.cols - 1) as nat),
                ..self
            }
        } else if c == 'D' {
            TermView { cursor_x: sat_sub(self.cursor_x, count_param(ps, 0)), ..self }
        } else if c == 'H' || c == 'f' {
            TermView {
                cursor_y: at_most((count_param(ps, 0) - 1) as nat, (self.rows - 1) as nat),
                cursor_x: at_most((count_param(ps, 1) - 1) as nat, (self.cols - 1) as nat),
                ..self
            }
        } else if c == 'J' {
            self.erase_in_display(param(ps, 0, 0))
        } else if c == 'K' {
            self.erase_in_line(param(ps, 0, 0))
        } else if c == 'm' {
            self.apply_sgr(ps)
        } else if c == 'c' {
            TermView { response_queue: self.response_queue + device_attributes_reply(), ..self }
        } else if c == 'n' {
            if param(ps, 0, 0) == 5 {
                TermView { response_queue: self.response_queue + status_ok_reply(), ..self }
            } else if param(ps, 0, 0) == 6 {
                TermView {
                    response_queue: self.response_queue + cursor_report(
                        self.cursor_x,
                        self.cursor_y,
                    ),
                    ..self
                }
            } else {
                self
            }
        } else if c == 'h' || c == 'l' {
            if inter.contains(0x3fu8) && param(ps, 0, 0) == 2004 {
                TermView { bracketed_paste: c == 'h', ..self }
            } else {
                self
            }
        } else {
            self
        };
        TermView { dirty: true, ..s }
    }

    /// The inputs on which a control sequence is defined: the moves that
    /// clamp to the last row or column need one, and erasing must stay on
    /// the grid.
    pub open spec fn csi_ok(self, ps: Seq<Seq<u16>>, c: char) -> bool {
        &&& c == 'B' ==> self.rows > 0
        &&& c == 'C' ==> self.cols > 0
        &&& (c == 'H' || c == 'f') ==> self.rows > 0 && self.cols > 0
        &&& c == 'J' ==> self.erase_in_display_ok(param(ps, 0, 0))
        &&& c == 'K' ==> self.erase_in_line_ok(param(ps, 0, 0))
    }

    /// An escape sequence: `ESC c` resets the grid, the cursor and the
    /// colours; anything else is ignored.
    pub open spec fn esc_dispatch(self, byte: u8) -> TermView {
        if byte == 0x63 {
            TermView {
                grid: fill(self.grid, 0, self.grid.len() as int, self.blank()),
                cursor_x: 0,
                cursor_y: 0,
                fg: self.default_fg,
                bg: self.default_bg,
                dirty: true,
                ..self
            }
        } else {
            self
        }
    }
}

/// The terminal: grid, cursor, pen, history and selection.
pub struct Term {
    pub cols: usize,
    pub rows: usize,
    pub grid: Vec<Cell>,
    pub cursor_x: usize,
    pub cursor_y: usize,
    pub fg: [u8; 3],
    pub bg: [u8; 3],
    pub default_fg: [u8; 3],
    pub default_bg: [u8; 3],
    pub bold: bool,
    pub palette: [[u8; 3]; 16],
    pub dirty: bool,
    /// Bytes to send back to the program in answer to its queries.
    pub response_queue: Vec<u8>,
    /// The mouse selection as `((col, row), (col, row))`: the click point and
    /// the drag point, in either order.
    pub selection: Option<((usize, usize), (usize, usize))>,
    /// Whether the program asked for bracketed paste (DECSET 2004).
    pub bracketed_paste: bool,
    /// Rows scrolled off the top, oldest first.
    pub scrollback: std::collections::VecDeque<Vec<Cell>>,
    /// How many rows back into history the view is; 0 is the live grid.
    pub scroll_offset: usize,
}

impl View for Term {
    type V = TermView;

    open spec fn view(&self) -> TermView {
        TermView {
            cols: self.cols as nat,
            rows: self.rows as nat,
            grid: self.grid@,
            cursor_x: self.cursor_x as nat,
            cursor_y: self.cursor_y as nat,
            fg: self.fg,
            bg: self.bg,
            default_fg: self.default_fg,
            default_bg: self.default_bg,
            bold: self.bold,
            palette: self.palette,
            dirty: self.dirty,
            response_queue: self.response_queue@,
            selection: self.selection,
            bracketed_paste: self.bracketed_paste,
            scrollback: rows_view(self.scrollback@),
            scroll_offset: self.scroll_offset as nat,
        }
    }
}

/// `y * cols + x` stays inside a grid of `cols * rows` cells.
pub proof fn lemma_index_in_grid(cols: int, rows: int, x: int, y: int)
    requires
        0 <= x < cols,
        0 <= y < rows,
    ensures
        0 <= y * cols + x < cols * rows,
        y * cols + cols <= cols * rows,
{
    assert(y * cols + cols <= cols * rows) by (nonlinear_arith)
        requires
            0 <= y < rows,
            0 <= x < cols,
    ;
    assert(0 <= y * cols) by (nonlinear_arith)
        requires
            0 <= y,
            0 <= cols,
    ;
}

/// The first `n` cells of `g`.
fn copy_prefix(g: &Vec<Cell>, n: usize) -> (r: Vec<Cell>)
    requires
        n <= g@.len(),
    ensures
        r@ == g@.subrange(0, n as int),
{
    let mut r: Vec<Cell> = Vec::new();
    let mut x: usize = 0;
    while x < n
        invariant
            x <= n <= g@.len(),
            r@ == g@.subrange(0, x as int),
        decreases n - x,
    {
        r.push(g[x]);
        x = x + 1;
        assert(r@ =~= g@.subrange(0, x as int));
    }
    r
}

/// Overwrites the cells in `[from, to)` with `c`.
fn fill_cells(g: &mut Vec<Cell>, from: usize, to: usize, c: Cell)
    requires
        from <= to <= old(g)@.len(),
    ensures
        final(g)@ == fill(old(g)@, from as int, to as int, c),
{
    let ghost g0 = g@;
    let mut i: usize = from;
    while i < to
        invariant
            from <= i <= to <= g@.len(),
            g@ =~= fill(g0, from as int, i as int, c),
        decreases to - i,
    {
        g.set(i, c);
        i = i + 1;
    }
}

/// Moves every cell `n` places towards the front; the last `n` cells keep
/// their old contents.
fn shift_left(g: &mut Vec<Cell>, n: usize)
    requires
        n <= old(g)@.len(),
    ensures
        final(g)@ == old(g)@.subrange(n as int, old(g)@.len() as int) + old(g)@.subrange(
            old(g)@.len() - n,
            old(g)@.len() as int,
        ),
{
    let ghost g0 = g@;
    let len = g.len();
    let mut k: usize = n;
    while k < len
        invariant
            n <= k <= len,
            len == g@.len(),
            len == g0.len(),
            g@ =~= g0.subrange(n as int, k as int) + g0.subrange(k - n, len as int),
        decreases len - k,
    {
        let c = g[k];
        g.set(k - n, c);
        k = k + 1;
    }
}

/// Adds `row` at the bottom of the history, dropping the oldest rows beyond
/// `MAX_SCROLLBACK_LINES`.
fn push_history(sb: &mut std::collections::VecDeque<Vec<Cell>>, row: Vec<Cell>)
    requires
        old(sb)@.len() <= MAX_SCROLLBACK_LINES,
    ensures
        rows_view(final(sb)@) == capped_push(
            rows_view(old(sb)@),
            row@,
        ),
        final(sb)@.len() <= MAX_SCROLLBACK_LINES,
{
    let ghost full = rows_view(old(sb)@).push(row@);
    let ghost row_view = row@;
    sb.push_back(row);
    assert(rows_view(sb@) =~= full);
    while sb.len() > MAX_SCROLLBACK_LINES
        invariant
            full.len() <= MAX_SCROLLBACK_LINES + 1,
            sb@.len() <= full.len(),
            sb@.len() >= MAX_SCROLLBACK_LINES || sb@.len() == full.len(),
            rows_view(sb@) =~= full.subrange(
                full.len() - sb@.len(),
                full.len() as int,
            ),
        decreases sb@.len(),
    {
        let ghost before = sb@;
        assert(rows_view(before) =~= full.subrange(
            full.len() - before.len(),
            full.len() as int,
        ));
        sb.pop_front();
        assert forall|i: int| 0 <= i < sb@.len() implies #[trigger] rows_view(sb@)[i] == full[full.len() - sb@.len() + i] by {
            assert(sb@[i] == before[i + 1]);
            assert(rows_view(before)[i + 1] == before[i + 1]@);
        }
        assert(rows_view(sb@) =~= full.subrange(
            full.len() - sb@.len(),
            full.len() as int,
        ));
    }
}

/// Row `y` of a grid of `cols * rows` cells lies inside it, and so does
/// every position up to one past its last column.
pub proof fn lemma_row_in_grid(cols: int, rows: int, y: int)
    requires
        0 <= cols,
        0 <= y < rows,
    ensures
        0 <= y * cols,
        y * cols + cols <= cols * rows,
{
    assert(y * cols + cols <= cols * rows) by (nonlinear_arith)
        requires
            0 <= y < rows,
            0 <= cols,
    ;
    assert(0 <= y * cols) by (nonlinear_arith)
        requires
            0 <= y,
            0 <= cols,
    ;
}

/// Appends the decimal digits of `n`.
fn push_decimal(out: &mut Vec<u8>, n: u128)
    ensures
        final(out)@ == old(out)@ + decimal(n as nat),
    decreases n,
{
    if n >= 10 {
        push_decimal(out, n / 10);
    }
    out.push((48 + n % 10) as u8);
    proof {
        if n >= 10 {
            assert(final(out)@ =~= old(out)@ + decimal(n as nat));
        } else {
            assert(final(out)@ =~= old(out)@ + decimal(n as nat));
        }
    }
}

/// The component level `k` (below 6) of the colour cube.
fn cube_level_of(k: u16) -> (r: u8)
    ensures
        r == cube_level(k as int),
{
    if k == 0 {
        0
    } else if k == 1 {
        95
    } else if k == 2 {
        135
    } else if k == 3 {
        175
    } else if k == 4 {
        215
    } else {
        255
    }
}

/// Parameter `n`, or `default` when there is none.
fn param_at(ps: &[Vec<u16>], n: usize, default: u16) -> (r: u16)
    ensures
        r == param(params_view(ps@), n as int, default),
{
    if n < ps.len() && ps[n].len() > 0 {
        ps[n][0]
    } else {
        default
    }
}

/// Whether `b` occurs in `bytes`.
fn contains_byte(bytes: &[u8], b: u8) -> (r: bool)
    ensures
        r == bytes@.contains(b),
{
    let mut k: usize = 0;
    while k < bytes.len()
        invariant
            k <= bytes@.len(),
            forall|j: int| 0 <= j < k ==> bytes@[j] != b,
        decreases bytes@.len() - k,
    {
        if bytes[k] == b {
            assert(bytes@[k as int] == b);
            return true;
        }
        k = k + 1;
    }
    false
}

impl Term {
    pub open spec fn wf(&self) -> bool {
        self@.wf()
    }

    pub fn new(
        cols: usize,
        rows: usize,
        default_fg: [u8; 3],
        default_bg: [u8; 3],
        palette: [[u8; 3]; 16],
    ) -> (t: Term)
        requires
            cols * rows <= usize::MAX,
        ensures
            t@ == TermView::initial(cols as nat, rows as nat, default_fg, default_bg, palette),
            t.wf(),
    {
        let n = cols * rows;
        let blank = Cell { ch: ' ', fg: default_fg, bg: default_bg, bold: false };
        let mut grid: Vec<Cell> = Vec::new();
        let mut i: usize = 0;
        while i < n
            invariant
                i <= n,
                grid@ == repeat_cell(blank, i as nat),
            decreases n - i,
        {
            grid.push(blank);
            i = i + 1;
            assert(grid@ =~= repeat_cell(blank, i as nat));
        }
        let t = Term {
            cols,
            rows,
            grid,
            cursor_x: 0,
            cursor_y: 0,
            fg: default_fg,
            bg: default_bg,
            default_fg,
            default_bg,
            bold: false,
            palette,
            dirty: true,
            response_queue: Vec::new(),
            selection: None,
            bracketed_paste: false,
            scrollback: std::collections::VecDeque::new(),
            scroll_offset: 0,
        };
        assert(t@ =~= TermView::initial(cols as nat, rows as nat, default_fg, default_bg, palette));
        t
    }

    /// The grid index of `(x, y)`.
    fn idx(&self, x: usize, y: usize) -> (i: usize)
        requires
            y * self.cols + x <= usize::MAX,
        ensures
            i == y * self.cols + x,
    {
        y * self.cols + x
    }

    /// The selection as `(start, end)` in reading order: start is at or
    /// before end, whichever way the mouse was dragged.
    pub fn selection_range(&self) -> (r: Option<((usize, usize), (usize, usize))>)
        ensures
            r == ordered_selection(self.selection),
            r is Some <==> self.selection is Some,
            r matches Some((s, e)) ==> pos_le(s, e),
    {
        match self.selection {
            None => None,
            Some((a, b)) => {
                if a.1 < b.1 || (a.1 == b.1 && a.0 <= b.0) {
                    Some((a, b))
                } else {
                    Some((b, a))
                }
            },
        }
    }

    pub fn clear_selection(&mut self)
        ensures
            final(self)@ == old(self)@.clear_selection(),
            old(self).wf() ==> final(self).wf(),
    {
        self.selection = None;
        self.dirty = true;
    }

    pub fn scroll_up(&mut self, lines: usize)
        ensures
            final(self)@ == old(self)@.scroll_up(lines as nat),
            old(self).wf() ==> final(self).wf(),
    {
        let len = self.scrollback.len();
        if self.scroll_offset <= len && lines <= len - self.scroll_offset {
            self.scroll_offset = self.scroll_offset + lines;
        } else {
            self.scroll_offset = len;
        }
        self.dirty = true;
    }

    pub fn scroll_down(&mut self, lines: usize)
        ensures
            final(self)@ == old(self)@.scroll_down(lines as nat),
            old(self).wf() ==> final(self).wf(),
    {
        self.scroll_offset = self.scroll_offset.saturating_sub(lines);
        self.dirty = true;
    }

    pub fn scroll_reset(&mut self)
        ensures
            final(self)@ == old(self)@.scroll_reset(),
            old(self).wf() ==> final(self).wf(),
    {
        if self.scroll_offset != 0 {
            self.scroll_offset = 0;
            self.dirty = true;
        }
    }

    /// Whether `row * cols + col` is an index of the grid (computed without
    /// overflow).
    fn grid_has(&self, col: usize, row: usize) -> (r: bool)
        requires
            self.wf(),
        ensures
            r == (row * self.cols + col < self.grid@.len()),
            r ==> row * self.cols + col <= usize::MAX,
    {
        if self.cols == 0 || row >= self.rows {
            proof {
                assert(row * self.cols + col >= self.cols * self.rows) by (nonlinear_arith)
                    requires
                        self.cols == 0 || row >= self.rows,
                        0 <= col,
                        0 <= self.cols,
                ;
            }
            false
        } else {
            proof {
                lemma_index_in_grid(self.cols as int, self.rows as int, 0, row as int);
            }
            let rem = self.grid.len() - row * self.cols;
            col < rem
        }
    }

    /// The cell to draw at `(col, row)` of the displayed view, which is the
    /// live grid or, while scrolled back, history.
    pub fn visible_cell(&self, col: usize, row: usize) -> (c: Cell)
        requires
            self.wf(),
        ensures
            c == self@.visible_cell(col as int, row as int),
    {
        let blank = Cell { ch: ' ', fg: self.default_fg, bg: self.default_bg, bold: false };
        if self.scroll_offset == 0 {
            if self.grid_has(col, row) {
                return self.grid[row * self.cols + col];
            } else {
                return blank;
            }
        }
        let sb_len = self.scrollback.len();
        let start = sb_len - self.scroll_offset;
        if row < sb_len - start {
            let k = start + row;
            let line = &self.scrollback[k];
            proof {
                assert(self@.scrollback[k as int] == line@);
            }
            if col < line.len() {
                line[col]
            } else {
                blank
            }
        } else {
            let grid_row = row - (sb_len - start);
            if grid_row < self.rows && self.grid_has(col, grid_row) {
                self.grid[grid_row * self.cols + col]
            } else {
                blank
            }
        }
    }

    /// Moves the grid up one row into history.
    fn scroll_up_one(&mut self)
        requires
            old(self).wf(),
            old(self).rows > 0,
        ensures
            final(self)@ == old(self)@.scroll_up_one(),
            final(self).wf(),
    {
        let ghost old_view = self@;
        let cols = self.cols;
        let len = self.grid.len();
        proof {
            assert(cols <= len) by (nonlinear_arith)
                requires
                    len == cols * self.rows,
                    self.rows > 0,
            ;
        }
        let top_row = copy_prefix(&self.grid, cols);
        push_history(&mut self.scrollback, top_row);
        shift_left(&mut self.grid, cols);
        let blank = Cell { ch: ' ', fg: self.default_fg, bg: self.default_bg, bold: false };
        fill_cells(&mut self.grid, len - cols, len, blank);
        assert(self.grid@ =~= old_view.grid.subrange(cols as int, len as int) + repeat_cell(
            blank,
            cols as nat,
        ));
        assert(self@ =~= old_view.scroll_up_one());
    }

    /// Moves the cursor one row down, scrolling at the bottom.
    fn newline(&mut self)
        requires
            old(self).wf(),
            old(self).rows > 0,
        ensures
            final(self)@ == old(self)@.newline(),
            final(self).wf(),
    {
        if self.cursor_y + 1 >= self.rows {
            self.scroll_up_one();
        } else {
            self.cursor_y = self.cursor_y + 1;
        }
    }

    /// Writes `c` at the cursor in the current pen and advances the cursor.
    pub fn put_char(&mut self, c: char)
        requires
            old(self).wf(),
            old(self).cols > 0,
            old(self).rows > 0,
        ensures
            final(self)@ == old(self)@.put_char(c),
            final(self).wf(),
    {
        if self.cursor_x >= self.cols {
            self.cursor_x = 0;
            self.newline();
        }
        proof {
            lemma_index_in_grid(
                self.cols as int,
                self.rows as int,
                self.cursor_x as int,
                self.cursor_y as int,
            );
        }
        let _len = self.grid.len();
        let i = self.idx(self.cursor_x, self.cursor_y);
        self.grid.set(i, Cell { ch: c, fg: self.fg, bg: self.bg, bold: self.bold });
        self.cursor_x = self.cursor_x + 1;
        self.dirty = true;
    }

    fn erase_in_display(&mut self, mode: u16)
        requires
            old(self).wf(),
            old(self)@.erase_in_display_ok(mode),
        ensures
            final(self)@ == old(self)@.erase_in_display(mode),
            final(self).wf(),
    {
        let ghost v0 = self@;
        let len = self.grid.len();
        let blank = Cell { ch: ' ', fg: self.default_fg, bg: self.default_bg, bold: false };
        if mode == 0 {
            if self.rows > 0 {
                proof {
                    lemma_row_in_grid(self.cols as int, self.rows as int, self.cursor_y as int);
                }
            }
            let start = self.idx(self.cursor_x, self.cursor_y);
            fill_cells(&mut self.grid, start, len, blank);
        } else if mode == 1 {
            proof {
                lemma_row_in_grid(self.cols as int, self.rows as int, self.cursor_y as int);
            }
            let i = self.idx(self.cursor_x, self.cursor_y);
            let end = if i < len - 1 {
                i
            } else {
                len - 1
            };
            fill_cells(&mut self.grid, 0, end + 1, blank);
        } else if mode == 2 || mode == 3 {
            fill_cells(&mut self.grid, 0, len, blank);
        }
        self.dirty = true;
        assert(self@ =~= v0.erase_in_display(mode));
    }

    fn erase_in_line(&mut self, mode: u16)
        requires
            old(self).wf(),
            old(self)@.erase_in_line_ok(mode),
        ensures
            final(self)@ == old(self)@.erase_in_line(mode),
            final(self).wf(),
    {
        let ghost v0 = self@;
        let len = self.grid.len();
        let cols = self.cols;
        let blank = Cell { ch: ' ', fg: self.default_fg, bg: self.default_bg, bold: false };
        if self.rows > 0 {
            proof {
                lemma_row_in_grid(self.cols as int, self.rows as int, self.cursor_y as int);
            }
        }
        if mode == 0 {
            if self.cursor_x < cols {
                let base = self.idx(0, self.cursor_y);
                fill_cells(&mut self.grid, base + self.cursor_x, base + cols, blank);
            }
        } else if mode == 1 {
            let base = self.idx(0, self.cursor_y);
            let last = if self.cursor_x < cols - 1 {
                self.cursor_x
            } else {
                cols - 1
            };
            fill_cells(&mut self.grid, base, base + last + 1, blank);
        } else if mode == 2 {
            if cols > 0 {
                let base = self.idx(0, self.cursor_y);
                fill_cells(&mut self.grid, base, base + cols, blank);
            }
        }
        self.dirty = true;
        assert(self.grid@ =~= v0.erase_in_line(mode).grid);
        assert(self@ =~= v0.erase_in_line(mode));
    }

    /// Changes the grid to `cols x rows`, keeping the cells that fit.
    pub fn resize(&mut self, cols: usize, rows: usize)
        requires
            old(self).wf(),
            cols * rows <= usize::MAX,
        ensures
            final(self)@ == old(self)@.resize(cols as nat, rows as nat),
            final(self).wf(),
    {
        if cols == self.cols && rows == self.rows {
            return ;
        }
        let ghost v0 = self@;
        let blank = Cell { ch: ' ', fg: self.default_fg, bg: self.default_bg, bold: false };
        let ghost target = v0.resize(cols as nat, rows as nat).grid;
        let mut new_grid: Vec<Cell> = Vec::new();
        let mut y: usize = 0;
        assert(target.len() == cols * rows);
        while y < rows
            invariant
                y <= rows,
                cols * rows <= usize::MAX,
                self@ == v0,
                v0.wf(),
                blank == v0.blank(),
                target == v0.resize(cols as nat, rows as nat).grid,
                !(cols == v0.cols && rows == v0.rows),
                target.len() == cols * rows,
                y * cols <= cols * rows,
                new_grid@ =~= target.subrange(0, y * cols),
            decreases rows - y,
        {
            proof {
                assert(y * cols + cols <= cols * rows) by (nonlinear_arith)
                    requires
                        y < rows,
                ;
            }
            let mut x: usize = 0;
            while x < cols
                invariant
                    x <= cols,
                    y < rows,
                    y * cols + cols <= cols * rows,
                    cols * rows <= usize::MAX,
                    self@ == v0,
                    v0.wf(),
                    blank == v0.blank(),
                    target == v0.resize(cols as nat, rows as nat).grid,
                    !(cols == v0.cols && rows == v0.rows),
                    target.len() == cols * rows,
                    new_grid@ =~= target.subrange(0, y * cols + x),
                decreases cols - x,
            {
                let c = if y < self.rows && x < self.cols {
                    proof {
                        lemma_index_in_grid(self.cols as int, self.rows as int, x as int, y as int);
                    }
                    let _l = self.grid.len();
                    self.grid[y * self.cols + x]
                } else {
                    blank
                };
                proof {
                    vstd::arithmetic::div_mod::lemma_fundamental_div_mod_converse(
                        (y * cols + x) as int,
                        cols as int,
                        y as int,
                        x as int,
                    );
                    assert(target[y * cols + x] == c);
                }
                new_grid.push(c);
                x = x + 1;
                assert(new_grid@ =~= target.subrange(0, y * cols + x));
            }
            y = y + 1;
            proof {
                assert((y - 1) * cols + cols == y * cols) by (nonlinear_arith);
                assert(y * cols <= cols * rows) by (nonlinear_arith)
                    requires
                        y <= rows,
                ;
            }
        }
        self.grid = new_grid;
        self.cols = cols;
        self.rows = rows;
        self.cursor_x = if cols == 0 {
            0
        } else if self.cursor_x < cols - 1 {
            self.cursor_x
        } else {
            cols - 1
        };
        self.cursor_y = if rows == 0 {
            0
        } else if self.cursor_y < rows - 1 {
            self.cursor_y
        } else {
            rows - 1
        };
        self.dirty = true;
        assert(rows * cols == cols * rows) by (nonlinear_arith);
        assert(self.grid@ =~= target);
        assert(self@ =~= v0.resize(cols as nat, rows as nat));
    }

    /// Entry `idx` of the 256-colour table.
    fn color256(&self, idx: u16) -> (r: [u8; 3])
        ensures
            r == self@.color256(idx),
    {
        if idx < 16 {
            self.palette[idx as usize]
        } else if idx < 232 {
            let j = idx - 16;
            [cube_level_of((j / 36) % 6), cube_level_of((j / 6) % 6), cube_level_of(j % 6)]
        } else {
            let t = #[verifier::truncate]
            ((idx - 232) as u8);
            let v = ((t as u16 * 10 + 8) % 256) as u8;
            [v, v, v]
        }
    }

    /// Select graphic rendition: sets the pen from the codes.
    fn apply_sgr(&mut self, params: &[Vec<u16>])
        requires
            old(self).wf(),
        ensures
            final(self)@ == old(self)@.apply_sgr(params_view(params@)),
            final(self).wf(),
    {
        let ghost v0 = self@;
        let ghost ps = params_view(params@);
        let mut codes: Vec<u16> = Vec::new();
        let mut k: usize = 0;
        while k < params.len()
            invariant
                k <= params@.len(),
                ps == params_view(params@),
                codes@ =~= Seq::new(k as nat, |i: int| param(ps, i, 0)),
            decreases params@.len() - k,
        {
            let v = param_at(params, k, 0);
            codes.push(v);
            k = k + 1;
        }
        if codes.len() == 0 {
            codes.push(0);
        }
        assert(codes@ =~= sgr_codes(ps));
        let n = codes.len();
        let mut i: usize = 0;
        while i < n
            invariant
                n == codes@.len(),
                i <= n,
                self@.sgr_from(codes@, i as int) == v0.sgr_from(codes@, 0),
                self@.grid == v0.grid,
                self@.cols == v0.cols,
                self@.rows == v0.rows,
                self@.cursor_x == v0.cursor_x,
                self@.cursor_y == v0.cursor_y,
                self@.scrollback == v0.scrollback,
                self@.scroll_offset == v0.scroll_offset,
            decreases n - i,
        {
            let ghost before = self@;
            let code = codes[i];
            let mut next = i + 1;
            if code == 0 {
                self.fg = self.default_fg;
                self.bg = self.default_bg;
                self.bold = false;
            } else if code == 1 {
                self.bold = true;
            } else if code == 22 {
                self.bold = false;
            } else if code == 39 {
                self.fg = self.default_fg;
            } else if code == 49 {
                self.bg = self.default_bg;
            } else if 30 <= code && code <= 37 {
                self.fg = self.palette[(code - 30) as usize];
            } else if 40 <= code && code <= 47 {
                self.bg = self.palette[(code - 40) as usize];
            } else if 90 <= code && code <= 97 {
                self.fg = self.palette[(code - 90 + 8) as usize];
            } else if 100 <= code && code <= 107 {
                self.bg = self.palette[(code - 100 + 8) as usize];
            } else if code == 38 || code == 48 {
                if n - i > 2 && codes[i + 1] == 5 {
                    let color = self.color256(codes[i + 2]);
                    if code == 38 {
                        self.fg = color;
                    } else {
                        self.bg = color;
                    }
                    next = i + 3;
                } else if n - i > 4 && codes[i + 1] == 2 {
                    let color = [
                        #[verifier::truncate]
                        (codes[i + 2] as u8),
                        #[verifier::truncate]
                        (codes[i + 3] as u8),
                        #[verifier::truncate]
                        (codes[i + 4] as u8),
                    ];
                    if code == 38 {
                        self.fg = color;
                    } else {
                        self.bg = color;
                    }
                    next = i + 5;
                }
            }
            assert(self@ =~= before.sgr_step(codes@, i as int).0);
            assert(next == before.sgr_step(codes@, i as int).1);
            i = next;
        }
    }

    /// Writes a printable character (the parser's `print` action).
    pub fn print(&mut self, c: char)
        requires
            old(self).wf(),
            old(self).cols > 0,
            old(self).rows > 0,
        ensures
            final(self)@ == old(self)@.put_char(c),
            final(self).wf(),
    {
        self.put_char(c);
    }

    /// Executes a C0 control byte (the parser's `execute` action).
    pub fn execute(&mut self, byte: u8)
        requires
            old(self).wf(),
            old(self)@.execute_ok(byte),
        ensures
            final(self)@ == old(self)@.execute(byte),
            final(self).wf(),
    {
        let ghost v0 = self@;
        if byte == 10 {
            self.cursor_x = 0;
            self.newline();
        } else if byte == 13 {
            self.cursor_x = 0;
        } else if byte == 8 {
            if self.cursor_x > 0 {
                self.cursor_x = self.cursor_x - 1;
            }
        } else if byte == 9 {
            let last = self.cols - 1;
            let q = self.cursor_x / 8;
            if q < last / 8 {
                self.cursor_x = (q + 1) * 8;
            } else {
                self.cursor_x = last;
            }
            proof {
                assert(((q + 1) * 8 <= last) == (q < last / 8)) by (nonlinear_arith);
            }
        }
        self.dirty = true;
        assert(self@ =~= v0.execute(byte));
    }

    /// Cursor movement: `A` up, `B` down, `C` right, `D` left, `H`/`f` to
    /// a position.
    fn csi_move(&mut self, params: &[Vec<u16>], intermediates: &[u8], c: char)
        requires
            old(self).wf(),
            old(self)@.csi_ok(params_view(params@), c),
            c == 'A' || c == 'B' || c == 'C' || c == 'D' || c == 'H' || c == 'f',
        ensures
            final(self)@ == old(self)@.csi_dispatch(params_view(params@), intermediates@, c),
            final(self).wf(),
    {
        let ghost v0 = self@;
        if c == 'A' {
            let p = param_at(params, 0, 1);
            let n = if p >= 1 { p as usize } else { 1 };
            self.cursor_y = self.cursor_y.saturating_sub(n);
        } else if c == 'B' {
            let p = param_at(params, 0, 1);
            let n = if p >= 1 { p as usize } else { 1 };
            let last = self.rows - 1;
            if n <= last - self.cursor_y {
                self.cursor_y = self.cursor_y + n;
            } else {
                self.cursor_y = last;
            }
        } else if c == 'C' {
            let p = param_at(params, 0, 1);
            let n = if p >= 1 { p as usize } else { 1 };
            let last = self.cols - 1;
            if self.cursor_x <= last && n <= last - self.cursor_x {
                self.cursor_x = self.cursor_x + n;
            } else {
                self.cursor_x = last;
            }
        } else if c == 'D' {
            let p = param_at(params, 0, 1);
            let n = if p >= 1 { p as usize } else { 1 };
            self.cursor_x = self.cursor_x.saturating_sub(n);
        } else {
            let p0 = param_at(params, 0, 1);
            let p1 = param_at(params, 1, 1);
            let row = (if p0 >= 1 { p0 as usize } else { 1 }) - 1;
            let col = (if p1 >= 1 { p1 as usize } else { 1 }) - 1;
            self.cursor_y = if row < self.rows - 1 { row } else { self.rows - 1 };
            self.cursor_x = if col < self.cols - 1 { col } else { self.cols - 1 };
        }
        self.dirty = true;
        assert(self@ =~= v0.csi_dispatch(params_view(params@), intermediates@, c));
    }

    /// Answers to queries: `c` device attributes, `n` device status.
    fn csi_report(&mut self, params: &[Vec<u16>], intermediates: &[u8], c: char)
        requires
            old(self).wf(),
            c == 'c' || c == 'n',
        ensures
            final(self)@ == old(self)@.csi_dispatch(params_view(params@), intermediates@, c),
            final(self).wf(),
    {
        let ghost v0 = self@;
        if c == 'c' {
            self.response_queue.push(0x1b);
            self.response_queue.push(0x5b);
            self.response_queue.push(0x3f);
            self.response_queue.push(0x36);
            self.response_queue.push(0x63);
            assert(self.response_queue@ =~= v0.response_queue + device_attributes_reply());
        } else {
            let m = param_at(params, 0, 0);
            if m == 5 {
                self.response_queue.push(0x1b);
                self.response_queue.push(0x5b);
                self.response_queue.push(0x30);
                self.response_queue.push(0x6e);
                assert(self.response_queue@ =~= v0.response_queue + status_ok_reply());
            } else if m == 6 {
                self.response_queue.push(0x1b);
                self.response_queue.push(0x5b);
                push_decimal(&mut self.response_queue, self.cursor_y as u128 + 1);
                self.response_queue.push(0x3b);
                push_decimal(&mut self.response_queue, self.cursor_x as u128 + 1);
                self.response_queue.push(0x52);
                assert(self.response_queue@ =~= v0.response_queue + cursor_report(
                    v0.cursor_x,
                    v0.cursor_y,
                ));
            }
        }
        self.dirty = true;
        assert(self@ =~= v0.csi_dispatch(params_view(params@), intermediates@, c));
    }

    /// Private mode set (`h`) and reset (`l`); only bracketed paste (2004)
    /// is handled.
    fn csi_mode(&mut self, params: &[Vec<u16>], intermediates: &[u8], c: char)
        requires
            old(self).wf(),
            c == 'h' || c == 'l',
        ensures
            final(self)@ == old(self)@.csi_dispatch(params_view(params@), intermediates@, c),
            final(self).wf(),
    {
        let ghost v0 = self@;
        let has_q = contains_byte(intermediates, 0x3f);
        if has_q && param_at(params, 0, 0) == 2004 {
            self.bracketed_paste = c == 'h';
        }
        self.dirty = true;
        assert(self@ =~= v0.csi_dispatch(params_view(params@), intermediates@, c));
    }

    /// Carries out a control sequence (the parser's `csi_dispatch`
    /// action). `params` holds each parameter with its sub-parameters.
    pub fn csi_dispatch(&mut self, params: &[Vec<u16>], intermediates: &[u8], ignore: bool, c: char)
        requires
            old(self).wf(),
            old(self)@.csi_ok(params_view(params@), c),
        ensures
            final(self)@ == old(self)@.csi_dispatch(params_view(params@), intermediates@, c),
            final(self).wf(),
    {
        let ghost v0 = self@;
        if c == 'A' || c == 'B' || c == 'C' || c == 'D' || c == 'H' || c == 'f' {
            self.csi_move(params, intermediates, c);
        } else if c == 'J' {
            let m = param_at(params, 0, 0);
            self.erase_in_display(m);
            self.dirty = true;
            assert(self@ =~= v0.csi_dispatch(params_view(params@), intermediates@, c));
        } else if c == 'K' {
            let m = param_at(params, 0, 0);
            self.erase_in_line(m);
            self.dirty = true;
            assert(self@ =~= v0.csi_dispatch(params_view(params@), intermediates@, c));
        } else if c == 'm' {
            self.apply_sgr(params);
            self.dirty = true;
            assert(self@ =~= v0.csi_dispatch(params_view(params@), intermediates@, c));
        } else if c == 'c' || c == 'n' {
            self.csi_report(params, intermediates, c);
        } else if c == 'h' || c == 'l' {
            self.csi_mode(params, intermediates, c);
        } else {
            self.dirty = true;
            assert(self@ =~= v0.csi_dispatch(params_view(params@), intermediates@, c));
        }
    }

    /// Carries out an escape sequence (the parser's `esc_dispatch`
    /// action): `ESC c` resets the grid, cursor and colours.
    pub fn esc_dispatch(&mut self, intermediates: &[u8], ignore: bool, byte: u8)
        requires
            old(self).wf(),
        ensures
            final(self)@ == old(self)@.esc_dispatch(byte),
            final(self).wf(),
    {
        if byte == 0x63 {
            let len = self.grid.len();
            let blank = Cell { ch: ' ', fg: self.default_fg, bg: self.default_bg, bold: false };
            fill_cells(&mut self.grid, 0, len, blank);
            self.cursor_x = 0;
            self.cursor_y = 0;
            self.fg = self.default_fg;
            self.bg = self.default_bg;
            self.dirty = true;
        }
    }

    /// The characters of the selected part of row `row`, untrimmed.
    fn row_chars(&self, row: usize, c0: usize, c1: usize) -> (r: Vec<char>)
        requires
            self.wf(),
            c1 < usize::MAX,
        ensures
            r@ == self@.row_text(row as int, c0 as int, c1 as int),
    {
        let mut line: Vec<char> = Vec::new();
        if c0 > c1 {
            return line;
        }
        let mut col = c0;
        while col <= c1
            invariant
                self.wf(),
                c0 <= col <= c1 + 1,
                c1 < usize::MAX,
                line@ == self@.row_text(row as int, c0 as int, col - 1),
            decreases c1 + 1 - col,
        {
            if self.grid_has(col, row) {
                line.push(self.grid[row * self.cols + col].ch);
            }
            col = col + 1;
            assert(line@ =~= self@.row_text(row as int, c0 as int, col - 1));
        }
        line
    }

    /// The plain text of the selection, each row's trailing white space
    /// trimmed (blank cells hold spaces) and rows joined by line feeds.
    pub fn selected_text(&self) -> (r: Option<String>)
        requires
            self.wf(),
        ensures
            r is Some <==> self@.selected_text() is Some,
            r matches Some(t) ==> t@ == self@.selected_text().unwrap(),
    {
        let (start, end) = match self.selection_range() {
            None => return None,
            Some(p) => p,
        };
        let last = if self.cols > 0 { self.cols - 1 } else { 0 };
        let mut out = String::new();
        let mut row = start.1;
        loop
            invariant_except_break
                row > start.1 ==> out@ == self@.selection_text(start, end, row - 1) + seq!['\n'],
                row == start.1 ==> out@ == Seq::<char>::empty(),
            invariant
                self.wf(),
                start.1 <= row <= end.1,
                pos_le(start, end),
                Some((start, end)) == ordered_selection(self.selection),
                last == (if self.cols > 0 { self.cols - 1 } else { 0 }),
            ensures
                out@ == self@.selection_text(start, end, end.1 as int),
            decreases end.1 - row,
        {
            let c0 = if row == start.1 { start.0 } else { 0 };
            let c1 = if row == end.1 {
                if end.0 < last { end.0 } else { last }
            } else {
                last
            };
            let line = self.row_chars(row, c0, c1);
            let k = trimmed_end_len(&line);
            push_chars(&mut out, &line, 0, k);
            assert(out@ =~= self@.selection_text(start, end, row as int));
            if row == end.1 {
                break;
            }
            push_char(&mut out, '\n');
            row = row + 1;
        }
        Some(out)
    }

    /// Starts a mouse selection at `cell`.
    pub fn begin_selection(&mut self, cell: (usize, usize))
        ensures
            final(self)@ == old(self)@.begin_selection(cell),
            old(self).wf() ==> final(self).wf(),
    {
        self.selection = Some((cell, cell));
        self.dirty = true;
    }

    /// Moves the drag end of the mouse selection to `cell`.
    pub fn extend_selection(&mut self, cell: (usize, usize))
        ensures
            final(self)@ == old(self)@.extend_selection(cell),
            old(self).wf() ==> final(self).wf(),
    {
        match self.selection {
            Some((start, _)) => {
                self.selection = Some((start, cell));
                self.dirty = true;
            },
            None => {},
        }
    }

    /// Scrolls the view by `lines` mouse-wheel lines.
    pub fn scroll_lines(&mut self, lines: i32)
        ensures
            final(self)@ == old(self)@.scroll_lines(lines as int),
            old(self).wf() ==> final(self).wf(),
    {
        if lines > 0 {
            self.scroll_up(lines as usize);
        } else if lines < 0 {
            let n = (0i64 - lines as i64) as usize;
            self.scroll_down(n);
        }
    }
}

// ---------------------------------------------------------------------------
// Laws
// ---------------------------------------------------------------------------

/// The selection in reading order does not depend on which way the mouse
/// was dragged, and its start is never after its end.
pub proof fn lemma_selection_direction(a: (usize, usize), b: (usize, usize))
    ensures
        ordered_selection(Some((a, b))) == ordered_selection(Some((b, a))),
        ordered_selection(Some((a, b))) matches Some((s, e)) ==> pos_le(s, e),
{
}

/// Scrolling back `n` lines and forward `n` lines returns to the same view
/// when the history was long enough; scrolling forward then back likewise
/// when the view was at least `n` lines back.
pub proof fn lemma_scroll_round_trip(v: TermView, n: nat)
    ensures
        v.scroll_offset + n <= v.scrollback.len() ==> v.scroll_up(n).scroll_down(n).scroll_offset
            == v.scroll_offset,
        v.scroll_offset >= n && v.scroll_offset <= v.scrollback.len() ==> v.scroll_down(n).scroll_up(
            n,
        ).scroll_offset == v.scroll_offset,
{
}

/// Back on the live grid, the view shows the grid itself.
pub proof fn lemma_scroll_reset_shows_grid(v: TermView, col: int, row: int)
    requires
        v.wf(),
        0 <= col < v.cols,
        0 <= row < v.rows,
    ensures
        v.scroll_reset().scroll_offset == 0,
        v.scroll_reset().visible_cell(col, row) == v.cell(col, row),
{
    lemma_index_in_grid(v.cols as int, v.rows as int, col, row);
}

/// Scrolled back as far as the history goes, the top row of the view is
/// the oldest row of history.
pub proof fn lemma_scrolled_to_top(v: TermView, col: int)
    requires
        v.wf(),
        v.scrollback.len() > 0,
        v.scroll_offset == v.scrollback.len(),
        0 <= col < v.scrollback[0].len(),
    ensures
        v.visible_cell(col, 0) == v.scrollback[0][col],
{
}

/// Scrolling the grid up keeps the old top row as the newest history row,
/// moves every other row up by one and brings in a blank bottom row; the
/// history never holds more than `MAX_SCROLLBACK_LINES` rows.
pub proof fn lemma_scroll_up_one(v: TermView, x: int, y: int)
    requires
        v.wf(),
        v.rows > 0,
        0 <= x < v.cols,
        0 <= y < v.rows,
    ensures
        v.scroll_up_one().wf(),
        v.scroll_up_one().scrollback.last() == v.grid.subrange(0, v.cols as int),
        v.scroll_up_one().scrollback.len() <= MAX_SCROLLBACK_LINES,
        y + 1 < v.rows ==> v.scroll_up_one().cell(x, y) == v.cell(x, y + 1),
        y + 1 == v.rows ==> v.scroll_up_one().cell(x, y) == v.blank(),
{
    lemma_index_in_grid(v.cols as int, v.rows as int, x, y);
    lemma_row_in_grid(v.cols as int, v.rows as int, y);
    assert((y + 1) * v.cols == y * v.cols + v.cols) by (nonlinear_arith);
    assert(v.cols * v.rows - v.cols == (v.rows - 1) * v.cols) by (nonlinear_arith);
    if y + 1 < v.rows {
        lemma_index_in_grid(v.cols as int, v.rows as int, x, y + 1);
    }
}

/// Writing a character in the last-but-one column and before leaves it at
/// the cursor, in the pen, and moves the cursor one column right.
pub proof fn lemma_put_char_writes_at_cursor(v: TermView, c: char)
    requires
        v.wf(),
        v.cursor_x < v.cols,
        v.rows > 0,
    ensures
        v.put_char(c).cell(v.cursor_x as int, v.cursor_y as int) == v.pen(c),
        v.put_char(c).cursor_x == v.cursor_x + 1,
        v.put_char(c).cursor_y == v.cursor_y,
{
    lemma_index_in_grid(v.cols as int, v.rows as int, v.cursor_x as int, v.cursor_y as int);
}

/// Resizing keeps every cell that lies inside both the old and the new
/// grid, and blanks the new cells.
pub proof fn lemma_resize_keeps_cells(v: TermView, cols: nat, rows: nat, x: int, y: int)
    requires
        v.wf(),
        0 <= x < cols,
        0 <= y < rows,
    ensures
        v.resize(cols, rows).wf(),
        x < v.cols && y < v.rows ==> v.resize(cols, rows).cell(x, y) == v.cell(x, y),
        !(x < v.cols && y < v.rows) ==> v.resize(cols, rows).cell(x, y) == v.blank(),
{
    lemma_index_in_grid(cols as int, rows as int, x, y);
    vstd::arithmetic::div_mod::lemma_fundamental_div_mod_converse(
        y * cols + x,
        cols as int,
        y,
        x,
    );
    if cols == v.cols && rows == v.rows {
    } else {
        assert(v.resize(cols, rows).grid.len() == cols * rows);
        assert(rows * cols == cols * rows) by (nonlinear_arith);
    }
}

/// Erasing the whole display leaves only blank cells.
pub proof fn lemma_erase_display_all(v: TermView, i: int)
    requires
        v.wf(),
        0 <= i < v.grid.len(),
    ensures
        v.erase_in_display(2).grid[i] == v.blank(),
        v.erase_in_display(2).grid.len() == v.grid.len(),
{
}

/// A full reset (`ESC c`) blanks the grid, homes the cursor and restores
/// the default colours.
pub proof fn lemma_full_reset(v: TermView, i: int)
    requires
        v.wf(),
        0 <= i < v.grid.len(),
    ensures
        v.esc_dispatch(0x63).grid[i] == v.blank(),
        v.esc_dispatch(0x63).cursor_x == 0,
        v.esc_dispatch(0x63).cursor_y == 0,
        v.esc_dispatch(0x63).fg == v.default_fg,
        v.esc_dispatch(0x63).bg == v.default_bg,
        v.esc_dispatch(0x63).wf(),
{
}

/// Select graphic rendition with no parameters resets the pen.
pub proof fn lemma_sgr_reset(v: TermView)
    ensures
        v.apply_sgr(Seq::empty()).fg == v.default_fg,
        v.apply_sgr(Seq::empty()).bg == v.default_bg,
        !v.apply_sgr(Seq::empty()).bold,
{
    let codes = sgr_codes(Seq::empty());
    let (s1, j) = v.sgr_step(codes, 0);
    assert(s1.sgr_from(codes, j) == s1);
}

/// The cursor position report counts rows and columns from 1.
pub proof fn lemma_cursor_report(v: TermView, ps: Seq<Seq<u16>>, inter: Seq<u8>)
    requires
        param(ps, 0, 0) == 6,
    ensures
        v.csi_dispatch(ps, inter, 'n').response_queue == v.response_queue + cursor_report(
            v.cursor_x,
            v.cursor_y,
        ),
{
}

/// With a wrap pending on the bottom row, printing scrolls: the old top row
/// becomes the newest history row (the history keeps at most
/// `MAX_SCROLLBACK_LINES` rows), every other row moves up one, and the
/// character is written in the pen at column 0 of the new blank bottom row,
/// with the cursor just after it.
pub proof fn lemma_wrap_on_bottom_row_scrolls(v: TermView, c: char, x: int, y: int)
    requires
        v.wf(),
        v.cols > 0,
        v.rows > 0,
        v.cursor_x == v.cols,
        v.cursor_y + 1 == v.rows,
        0 <= x < v.cols,
        0 <= y < v.rows,
    ensures
        v.put_char(c).grid.len() == v.grid.len(),
        v.put_char(c).scrollback.len() == if v.scrollback.len() < MAX_SCROLLBACK_LINES {
            v.scrollback.len() + 1
        } else {
            MAX_SCROLLBACK_LINES as nat
        },
        v.put_char(c).scrollback.last() == v.grid.subrange(0, v.cols as int),
        y + 1 < v.rows ==> v.put_char(c).grid[y * v.cols + x] == v.grid[(y + 1) * v.cols + x],
        v.put_char(c).grid[(v.rows - 1) * v.cols] == (Cell { ch: c, fg: v.fg, bg: v.bg, bold: v.bold }),
        y + 1 == v.rows && x > 0 ==> v.put_char(c).grid[y * v.cols + x] == (Cell {
            ch: ' ',
            fg: v.default_fg,
            bg: v.default_bg,
            bold: false,
        }),
        v.put_char(c).cursor_x == 1,
        v.put_char(c).cursor_y == v.cursor_y,
{
    let c0 = v.cols as int;
    lemma_index_in_grid(c0, v.rows as int, x, y);
    lemma_index_in_grid(c0, v.rows as int, 0, v.rows - 1);
    assert((y + 1) * c0 == y * c0 + c0) by (nonlinear_arith);
    assert(c0 * v.rows - c0 == (v.rows - 1) * c0) by (nonlinear_arith);
    if y + 1 < v.rows {
        lemma_index_in_grid(c0, v.rows as int, x, y + 1);
    }
}

/// Printing with a wrap pending is a line feed followed by printing.
pub proof fn lemma_wrap_is_line_feed(v: TermView, c: char)
    requires
        v.cols > 0,
        v.cursor_x >= v.cols,
    ensures
        v.put_char(c) == v.execute(10u8).put_char(c),
{
}

/// `SGR 48;2;r;g;b` sets the background to `[r, g, b]` and `38;2;r;g;b`
/// the foreground; `48;5;n` and `38;5;n` set them to entry `n` of the
/// 256-colour table. The other half of the pen and the weight stay.
pub proof fn lemma_sgr_direct_colors(v: TermView, r: u16, g: u16, b: u16, n: u16, inter: Seq<u8>)
    ensures
        v.csi_dispatch(seq![seq![48u16], seq![2u16], seq![r], seq![g], seq![b]], inter, 'm').bg
            == [r as u8, g as u8, b as u8],
        v.csi_dispatch(seq![seq![48u16], seq![2u16], seq![r], seq![g], seq![b]], inter, 'm').fg
            == v.fg,
        v.csi_dispatch(seq![seq![48u16], seq![2u16], seq![r], seq![g], seq![b]], inter, 'm').bold
            == v.bold,
        v.csi_dispatch(seq![seq![38u16], seq![2u16], seq![r], seq![g], seq![b]], inter, 'm').fg
            == [r as u8, g as u8, b as u8],
        v.csi_dispatch(seq![seq![38u16], seq![2u16], seq![r], seq![g], seq![b]], inter, 'm').bg
            == v.bg,
        v.csi_dispatch(seq![seq![38u16], seq![2u16], seq![r], seq![g], seq![b]], inter, 'm').bold
            == v.bold,
        v.csi_dispatch(seq![seq![48u16], seq![5u16], seq![n]], inter, 'm').bg == v.color256(n),
        v.csi_dispatch(seq![seq![48u16], seq![5u16], seq![n]], inter, 'm').fg == v.fg,
        v.csi_dispatch(seq![seq![38u16], seq![5u16], seq![n]], inter, 'm').fg == v.color256(n),
        v.csi_dispatch(seq![seq![38u16], seq![5u16], seq![n]], inter, 'm').bg == v.bg,
{
    let t48: Seq<Seq<u16>> = seq![seq![48u16], seq![2u16], seq![r], seq![g], seq![b]];
    let t38: Seq<Seq<u16>> = seq![seq![38u16], seq![2u16], seq![r], seq![g], seq![b]];
    let i48: Seq<Seq<u16>> = seq![seq![48u16], seq![5u16], seq![n]];
    let i38: Seq<Seq<u16>> = seq![seq![38u16], seq![5u16], seq![n]];
    assert(sgr_codes(t48) =~= seq![48u16, 2, r, g, b]);
    assert(sgr_codes(t38) =~= seq![38u16, 2, r, g, b]);
    assert(sgr_codes(i48) =~= seq![48u16, 5, n]);
    assert(sgr_codes(i38) =~= seq![38u16, 5, n]);
    let (a1, j1) = v.sgr_step(sgr_codes(t48), 0);
    assert(a1.sgr_from(sgr_codes(t48), j1) == a1);
    let (a2, j2) = v.sgr_step(sgr_codes(t38), 0);
    assert(a2.sgr_from(sgr_codes(t38), j2) == a2);
    let (a3, j3) = v.sgr_step(sgr_codes(i48), 0);
    assert(a3.sgr_from(sgr_codes(i48), j3) == a3);
    let (a4, j4) = v.sgr_step(sgr_codes(i38), 0);
    assert(a4.sgr_from(sgr_codes(i38), j4) == a4);
}

/// The characters of row `row` in columns `c0` through `c1` of the grid.
proof fn lemma_row_text_cells(v: TermView, row: int, c0: int, c1: int)
    requires
        v.wf(),
        0 <= row < v.rows,
        0 <= c0,
        c0 - 1 <= c1 < v.cols,
    ensures
        v.row_text(row, c0, c1) == Seq::new(
            (c1 - c0 + 1) as nat,
            |i: int| v.grid[row * v.cols + c0 + i].ch,
        ),
    decreases c1 - c0 + 1,
{
    if c1 >= c0 {
        lemma_row_text_cells(v, row, c0, c1 - 1);
        lemma_index_in_grid(v.cols as int, v.rows as int, c1, row);
        assert(v.row_text(row, c0, c1) =~= Seq::new(
            (c1 - c0 + 1) as nat,
            |i: int| v.grid[row * v.cols + c0 + i].ch,
        ));
    } else {
        assert(v.row_text(row, c0, c1) =~= Seq::new(
            (c1 - c0 + 1) as nat,
            |i: int| v.grid[row * v.cols + c0 + i].ch,
        ));
    }
}

/// A selection within one row, from column `a` through column `b` (dragged
/// either way), copies exactly the characters of those columns, trailing
/// white space dropped.
pub proof fn lemma_selection_in_one_row(v: TermView, r: usize, a: usize, b: usize)
    requires
        v.wf(),
        a <= b < v.cols,
        r < v.rows,
        v.selection == Some(((a, r), (b, r))) || v.selection == Some(((b, r), (a, r))),
    ensures
        v.selected_text() == Some(
            trim_end(Seq::new((b - a + 1) as nat, |i: int| v.grid[r * v.cols + a + i].ch)),
        ),
{
    assert(ordered_selection(v.selection) == Some(((a, r), (b, r))));
    lemma_row_text_cells(v, r as int, a as int, b as int);
}

/// Cursor up (`CSI A`) moves up by its parameter, by one when the parameter
/// is missing, empty or 0, and stops at the top row; nothing else moves.
pub proof fn lemma_cursor_up(v: TermView, n: u16, inter: Seq<u8>)
    ensures
        v.csi_dispatch(Seq::empty(), inter, 'A').cursor_y == if v.cursor_y >= 1 {
            v.cursor_y - 1
        } else {
            0
        },
        v.csi_dispatch(seq![Seq::empty()], inter, 'A').cursor_y == if v.cursor_y >= 1 {
            v.cursor_y - 1
        } else {
            0
        },
        v.csi_dispatch(seq![seq![n]], inter, 'A').cursor_y == if n == 0 {
            if v.cursor_y >= 1 {
                v.cursor_y - 1
            } else {
                0
            }
        } else if v.cursor_y >= n {
            v.cursor_y - n
        } else {
            0
        },
        v.csi_dispatch(seq![seq![n]], inter, 'A').cursor_x == v.cursor_x,
        v.csi_dispatch(seq![seq![n]], inter, 'A').grid == v.grid,
{
}

} // verus!
