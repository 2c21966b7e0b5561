//! Pixel work of the renderer on a frame buffer of `0x00RRGGBB` words, laid
//! out row by row, `width` pixels to a row.

use vstd::prelude::*;
use vstd::arithmetic::div_mod::lemma_fundamental_div_mod_converse;
use crate::term::pos_le;

verus! {

/// A colour as a `0x00RRGGBB` word.
pub open spec fn packed(r: u8, g: u8, b: u8) -> u32 {
    (r as int * 65536 + g as int * 256 + b as int) as u32
}

/// Packs a colour into a `0x00RRGGBB` word.
pub fn pack(r: u8, g: u8, b: u8) -> (p: u32)
    ensures
        p == packed(r, g, b),
        p == r as int * 65536 + g as int * 256 + b as int,
{
    (r as u32) * 65536 + (g as u32) * 256 + (b as u32)
}

/// A packed colour gives back its components: red in bits 16..24, green
/// in bits 8..16, blue in bits 0..8.
pub proof fn lemma_packed_components(r: u8, g: u8, b: u8)
    ensures
        packed(r, g, b) / 65536 == r,
        (packed(r, g, b) / 256) % 256 == g,
        packed(r, g, b) % 256 == b,
{
    let p = r as int * 65536 + g as int * 256 + b as int;
    assert(p / 65536 == r) by (nonlinear_arith)
        requires
            p == r as int * 65536 + g as int * 256 + b as int,
            0 <= r < 256,
            0 <= g < 256,
            0 <= b < 256,
    ;
    assert(p / 256 == r as int * 256 + g as int) by (nonlinear_arith)
        requires
            p == r as int * 65536 + g as int * 256 + b as int,
            0 <= b < 256,
    ;
    assert((r as int * 256 + g as int) % 256 == g) by (nonlinear_arith)
        requires
            0 <= g < 256,
    ;
    assert(p % 256 == b) by (nonlinear_arith)
        requires
            p == r as int * 65536 + g as int * 256 + b as int,
            0 <= b < 256,
    ;
}

/// Sets every pixel to `px`.
pub fn fill_all(buffer: &mut [u32], px: u32)
    ensures
        final(buffer)@ == Seq::new(old(buffer)@.len(), |i: int| px),
{
    let n = buffer.len();
    let mut i: usize = 0;
    while i < n
        invariant
            i <= n == buffer@.len(),
            forall|j: int| 0 <= j < i ==> buffer@[j] == px,
        decreases n - i,
    {
        buffer[i] = px;
        i = i + 1;
    }
    assert(buffer@ =~= Seq::new(n as nat, |i: int| px));
}

/// Whether pixel `i` lies in the rectangle of `w x h` pixels whose top left
/// is `(x0, y0)`.
pub open spec fn in_rect(i: int, width: int, x0: int, y0: int, w: int, h: int) -> bool {
    width > 0 && y0 <= i / width < y0 + h && x0 <= i % width < x0 + w
}

/// Row `y`, column `x` of a buffer `width` pixels wide is pixel
/// `y * width + x`.
pub proof fn lemma_pixel_position(width: int, x: int, y: int)
    requires
        0 <= x < width,
        0 <= y,
    ensures
        (y * width + x) / width == y,
        (y * width + x) % width == x,
{
    lemma_fundamental_div_mod_converse(y * width + x, width, y, x);
}

/// A pixel is found again from its row and column.
pub proof fn lemma_pixel_from_position(width: int, i: int)
    requires
        0 < width,
        0 <= i,
    ensures
        i == (i / width) * width + i % width,
        0 <= i % width < width,
        0 <= i / width,
{
    vstd::arithmetic::div_mod::lemma_fundamental_div_mod(i, width);
    assert(width * (i / width) == (i / width) * width) by (nonlinear_arith);
    assert(0 <= i / width) by (nonlinear_arith)
        requires
            0 < width,
            0 <= i,
    ;
}

/// Paints the rectangle of `w x h` pixels at `(x0, y0)` in `color`,
/// leaving out pixels past the end of the buffer.
pub fn fill_rect(buffer: &mut [u32], width: usize, x0: usize, y0: usize, w: usize, h: usize, color: u32)
    requires
        x0 + w <= width,
        y0 + h <= usize::MAX,
        (y0 + h) * width <= usize::MAX,
    ensures
        final(buffer)@.len() == old(buffer)@.len(),
        forall|i: int|
            0 <= i < old(buffer)@.len() ==> #[trigger] final(buffer)@[i] == if in_rect(
                i,
                width as int,
                x0 as int,
                y0 as int,
                w as int,
                h as int,
            ) {
                color
            } else {
                old(buffer)@[i]
            },
{
    let ghost b0 = buffer@;
    let n = buffer.len();
    let mut yy: usize = 0;
    while yy < h
        invariant
            x0 + w <= width,
            y0 + h <= usize::MAX,
            (y0 + h) * width <= usize::MAX,
            yy <= h,
            n == buffer@.len(),
            n == b0.len(),
            forall|i: int|
                0 <= i < n ==> #[trigger] buffer@[i] == if in_rect(
                    i,
                    width as int,
                    x0 as int,
                    y0 as int,
                    w as int,
                    yy as int,
                ) {
                    color
                } else {
                    b0[i]
                },
        decreases h - yy,
    {
        proof {
            assert((y0 + yy) * width + width <= (y0 + h) * width) by (nonlinear_arith)
                requires
                    yy < h,
                    0 <= width,
            ;
        }
        let row_start = (y0 + yy) * width + x0;
        let mut xx: usize = 0;
        while xx < w
            invariant
                x0 + w <= width,
                (y0 + yy) * width + width <= usize::MAX,
                row_start == (y0 + yy) * width + x0,
                yy < h,
                xx <= w,
                n == buffer@.len(),
                n == b0.len(),
                forall|i: int|
                    0 <= i < n ==> #[trigger] buffer@[i] == if in_rect(
                        i,
                        width as int,
                        x0 as int,
                        y0 as int,
                        w as int,
                        yy as int,
                    ) || (width > 0 && i / (width as int) == y0 + yy && x0 <= i % (width as int) < x0
                        + xx) {
                        color
                    } else {
                        b0[i]
                    },
            decreases w - xx,
        {
            proof {
                lemma_pixel_position(width as int, (x0 + xx) as int, (y0 + yy) as int);
            }
            let ghost prev = buffer@;
            if row_start + xx < n {
                buffer[row_start + xx] = color;
            }
            xx = xx + 1;
            proof {
                assert forall|i: int| 0 <= i < n implies #[trigger] buffer@[i] == if in_rect(
                    i,
                    width as int,
                    x0 as int,
                    y0 as int,
                    w as int,
                    yy as int,
                ) || (width > 0 && i / (width as int) == y0 + yy && x0 <= i % (width as int) < x0
                    + xx) {
                    color
                } else {
                    b0[i]
                } by {
                    lemma_pixel_position(width as int, (x0 + xx - 1) as int, (y0 + yy) as int);
                    if i != row_start + xx - 1 {
                        assert(buffer@[i] == prev[i]);
                        if width > 0 && i / (width as int) == y0 + yy && i % (width as int) == x0 + xx
                            - 1 {
                            lemma_pixel_from_position(width as int, i);
                        }
                    }
                }
            }
        }
        yy = yy + 1;
        proof {
            assert forall|i: int| 0 <= i < n implies #[trigger] buffer@[i] == if in_rect(
                i,
                width as int,
                x0 as int,
                y0 as int,
                w as int,
                yy as int,
            ) {
                color
            } else {
                b0[i]
            } by {}
        }
    }
}

/// Whether pixel `(row, col)` is on the outline of the `w x h` box at
/// `(cx, cy)`, clipped to a `width x height` frame: the left and right
/// columns over the box's rows, and the top and bottom rows over its
/// columns (the last column and row are `w - 1` and `h - 1`, or the first
/// when the box is empty).
pub open spec fn on_outline(
    row: int,
    col: int,
    cx: int,
    cy: int,
    w: int,
    h: int,
    width: int,
    height: int,
) -> bool {
    let right = if w >= 1 {
        cx + w - 1
    } else {
        cx
    };
    let bottom = if h >= 1 {
        cy + h - 1
    } else {
        cy
    };
    &&& 0 <= row < height
    &&& 0 <= col < width
    &&& {
        ||| (cy <= row < cy + h && (col == cx || col == right))
        ||| (cx <= col < cx + w && (row == cy || row == bottom))
    }
}

/// Draws the outline of the `w x h` box at `(cx, cy)` in `color`, clipped to
/// the `width x height` frame.
pub fn draw_outline(
    buffer: &mut [u32],
    width: usize,
    height: usize,
    cx: usize,
    cy: usize,
    w: usize,
    h: usize,
    color: u32,
)
    requires
        width * height <= old(buffer)@.len(),
        cx + w <= usize::MAX,
        cy + h <= usize::MAX,
    ensures
        final(buffer)@.len() == old(buffer)@.len(),
        forall|i: int|
            0 <= i < old(buffer)@.len() ==> #[trigger] final(buffer)@[i] == if width > 0 && i
                < width * height && on_outline(
                i / (width as int),
                i % (width as int),
                cx as int,
                cy as int,
                w as int,
                h as int,
                width as int,
                height as int,
            ) {
                color
            } else {
                old(buffer)@[i]
            },
{
    let ghost b0 = buffer@;
    let n = buffer.len();
    let right = w.saturating_sub(1);
    let bottom = h.saturating_sub(1);
    let mut yy: usize = 0;
    while yy < h
        invariant
            width * height <= n,
            n == buffer@.len(),
            n == b0.len(),
            cx + w <= usize::MAX,
            cy + h <= usize::MAX,
            right == (if w >= 1 { w - 1 } else { 0 }),
            yy <= h,
            forall|i: int|
                0 <= i < n ==> #[trigger] buffer@[i] == if width > 0 && i < width * height && {
                    let r = i / (width as int);
                    let c = i % (width as int);
                    cy <= r < cy + yy && (c == cx || c == cx + right)
                } {
                    color
                } else {
                    b0[i]
                },
        decreases h - yy,
    {
        let row = cy + yy;
        if row < height {
            let mut s: usize = 0;
            while s < 2
                invariant
                    width * height <= n,
                    n == buffer@.len(),
                    n == b0.len(),
                    cx + w <= usize::MAX,
                    right == (if w >= 1 { w - 1 } else { 0 }),
                    row == cy + yy,
                    row < height,
                    s <= 2,
                    forall|i: int|
                        0 <= i < n ==> #[trigger] buffer@[i] == if width > 0 && i < width * height
                            && {
                            let r = i / (width as int);
                            let c = i % (width as int);
                            (cy <= r < cy + yy && (c == cx || c == cx + right)) || (r == row && (
                            (s >= 1 && c == cx) || (s >= 2 && c == cx + right)))
                        } {
                            color
                        } else {
                            b0[i]
                        },
                decreases 2 - s,
            {
                let col = if s == 0 {
                    cx
                } else {
                    cx + right
                };
                if col < width {
                    proof {
                        lemma_pixel_position(width as int, col as int, row as int);
                        assert(row * width + col < width * height) by (nonlinear_arith)
                            requires
                                row < height,
                                col < width,
                        ;
                    }
                    let ghost prev = buffer@;
                    buffer[row * width + col] = color;
                    proof {
                        assert forall|i: int| 0 <= i < n implies #[trigger] buffer@[i] == if width
                            > 0 && i < width * height && {
                            let r = i / (width as int);
                            let c = i % (width as int);
                            (cy <= r < cy + yy && (c == cx || c == cx + right)) || (r == row && (
                            (s + 1 >= 1 && c == cx) || (s + 1 >= 2 && c == cx + right)))
                        } {
                            color
                        } else {
                            b0[i]
                        } by {
                            if i != row * width + col {
                                assert(buffer@[i] == prev[i]);
                                if width > 0 && 0 <= i {
                                    lemma_pixel_from_position(width as int, i);
                                }
                            }
                        }
                    }
                } else {
                    proof {
                        assert forall|i: int| 0 <= i < n implies #[trigger] buffer@[i] == if width
                            > 0 && i < width * height && {
                            let r = i / (width as int);
                            let c = i % (width as int);
                            (cy <= r < cy + yy && (c == cx || c == cx + right)) || (r == row && (
                            (s + 1 >= 1 && c == cx) || (s + 1 >= 2 && c == cx + right)))
                        } {
                            color
                        } else {
                            b0[i]
                        } by {
                            if width > 0 && 0 <= i {
                                assert(i % (width as int) < width) by (nonlinear_arith)
                                    requires
                                        width > 0,
                                ;
                            }
                        }
                    }
                }
                s = s + 1;
            }
        } else {
            proof {
                assert forall|i: int| 0 <= i < n implies #[trigger] buffer@[i] == if width > 0 && i
                    < width * height && {
                    let r = i / (width as int);
                    let c = i % (width as int);
                    cy <= r < cy + yy + 1 && (c == cx || c == cx + right)
                } {
                    color
                } else {
                    b0[i]
                } by {
                    if width > 0 && 0 <= i < width * height {
                        assert(i / (width as int) < height) by (nonlinear_arith)
                            requires
                                width > 0,
                                0 <= i < width * height,
                        ;
                    }
                }
            }
        }
        yy = yy + 1;
    }
    let mut xx: usize = 0;
    while xx < w
        invariant
            width * height <= n,
            n == buffer@.len(),
            n == b0.len(),
            cx + w <= usize::MAX,
            cy + h <= usize::MAX,
            right == (if w >= 1 { w - 1 } else { 0 }),
            bottom == (if h >= 1 { h - 1 } else { 0 }),
            xx <= w,
            forall|i: int|
                0 <= i < n ==> #[trigger] buffer@[i] == if width > 0 && i < width * height && {
                    let r = i / (width as int);
                    let c = i % (width as int);
                    (cy <= r < cy + h && (c == cx || c == cx + right)) || (cx <= c < cx + xx && (r
                        == cy || r == cy + bottom))
                } {
                    color
                } else {
                    b0[i]
                },
        decreases w - xx,
    {
        let col = cx + xx;
        let mut s: usize = 0;
        while s < 2
            invariant
                width * height <= n,
                n == buffer@.len(),
                n == b0.len(),
                cy + h <= usize::MAX,
                bottom == (if h >= 1 { h - 1 } else { 0 }),
                col == cx + xx,
                xx < w,
                s <= 2,
                forall|i: int|
                    0 <= i < n ==> #[trigger] buffer@[i] == if width > 0 && i < width * height && {
                        let r = i / (width as int);
                        let c = i % (width as int);
                        (cy <= r < cy + h && (c == cx || c == cx + right)) || (cx <= c < cx + xx
                            && (r == cy || r == cy + bottom)) || (c == col && ((s >= 1 && r == cy)
                            || (s >= 2 && r == cy + bottom)))
                    } {
                        color
                    } else {
                        b0[i]
                    },
            decreases 2 - s,
        {
            let row = if s == 0 {
                cy
            } else {
                cy + bottom
            };
            let ghost prev = buffer@;
            if row < height && col < width {
                proof {
                    lemma_pixel_position(width as int, col as int, row as int);
                    assert(row * width + col < width * height) by (nonlinear_arith)
                        requires
                            row < height,
                            col < width,
                    ;
                }
                buffer[row * width + col] = color;
            }
            proof {
                assert forall|i: int| 0 <= i < n implies #[trigger] buffer@[i] == if width > 0 && i
                    < width * height && {
                    let r = i / (width as int);
                    let c = i % (width as int);
                    (cy <= r < cy + h && (c == cx || c == cx + right)) || (cx <= c < cx + xx && (r
                        == cy || r == cy + bottom)) || (c == col && ((s + 1 >= 1 && r == cy) || (s
                        + 1 >= 2 && r == cy + bottom)))
                } {
                    color
                } else {
                    b0[i]
                } by {
                    if width > 0 && 0 <= i < width * height {
                        assert(i / (width as int) < height && i % (width as int) < width)
                            by (nonlinear_arith)
                            requires
                                width > 0,
                                0 <= i < width * height,
                        ;
                    }
                    if row < height && col < width {
                        lemma_pixel_position(width as int, col as int, row as int);
                    }
                    if !(row < height && col < width && i == row * width + col) {
                        assert(buffer@[i] == prev[i]);
                        if width > 0 && 0 <= i {
                            lemma_pixel_from_position(width as int, i);
                        }
                    }
                }
            }
            s = s + 1;
        }
        xx = xx + 1;
    }
    proof {
        assert forall|i: int| 0 <= i < n implies #[trigger] buffer@[i] == if width > 0 && i < width
            * height && on_outline(
            i / (width as int),
            i % (width as int),
            cx as int,
            cy as int,
            w as int,
            h as int,
            width as int,
            height as int,
        ) {
            color
        } else {
            b0[i]
        } by {
            if width > 0 && 0 <= i < width * height {
                assert(0 <= i / (width as int) < height && 0 <= i % (width as int) < width)
                    by (nonlinear_arith)
                    requires
                        width > 0,
                        0 <= i < width * height,
                ;
            }
        }
    }
}

/// Whether the cell at column `x`, row `y` lies in an ordered selection
/// `(start, end)`, comparing in reading order.
pub open spec fn selection_covers(sel: Option<((usize, usize), (usize, usize))>, x: usize, y: usize) -> bool {
    match sel {
        Some((start, end)) => pos_le(start, (x, y)) && pos_le((x, y), end),
        None => false,
    }
}

/// Whether the cell at `(x, y)` is selected, given the selection in reading
/// order.
pub fn in_selection(sel: Option<((usize, usize), (usize, usize))>, x: usize, y: usize) -> (r: bool)
    ensures
        r == selection_covers(sel, x, y),
{
    match sel {
        Some((start, end)) => {
            let after_start = start.1 < y || (start.1 == y && start.0 <= x);
            let before_end = y < end.1 || (y == end.1 && x <= end.0);
            after_start && before_end
        },
        None => false,
    }
}

/// The top-left pixel of cell `(x, y)` when the whole cell fits in the
/// frame; `None` when it would be cut off.
pub fn cell_origin(
    x: usize,
    y: usize,
    padding: usize,
    cell_w: usize,
    cell_h: usize,
    width: usize,
    height: usize,
) -> (r: Option<(usize, usize)>)
    ensures
        r == if padding + x * cell_w + cell_w <= width && padding + y * cell_h + cell_h <= height {
            Some(((padding + x * cell_w) as usize, (padding + y * cell_h) as usize))
        } else {
            None::<(usize, usize)>
        },
{
    if cell_w > 0 && x > (width / cell_w) {
        proof {
            assert(x * cell_w >= (width / cell_w + 1) * cell_w) by (nonlinear_arith)
                requires
                    x >= width / cell_w + 1,
                    cell_w > 0,
            ;
            assert((width / cell_w + 1) * cell_w > width) by (nonlinear_arith)
                requires
                    cell_w > 0,
            ;
        }
        return None;
    }
    if cell_h > 0 && y > (height / cell_h) {
        proof {
            assert(y * cell_h >= (height / cell_h + 1) * cell_h) by (nonlinear_arith)
                requires
                    y >= height / cell_h + 1,
                    cell_h > 0,
            ;
            assert((height / cell_h + 1) * cell_h > height) by (nonlinear_arith)
                requires
                    cell_h > 0,
            ;
        }
        return None;
    }
    proof {
        assert(x * cell_w <= width) by (nonlinear_arith)
            requires
                cell_w == 0 || x <= width / cell_w,
        ;
        assert(y * cell_h <= height) by (nonlinear_arith)
            requires
                cell_h == 0 || y <= height / cell_h,
        ;
    }
    let xo = x * cell_w;
    let yo = y * cell_h;
    if padding <= width && xo <= width - padding && cell_w <= width - padding - xo && padding
        <= height && yo <= height - padding && cell_h <= height - padding - yo {
        Some((padding + xo, padding + yo))
    } else {
        None
    }
}

} // verus!
