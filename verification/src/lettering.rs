//! Capital letters in dots, for the label on the cover.

use vstd::prelude::*;

use crate::canvas;
use crate::fb::{SCREEN_H, SCREEN_W};
use crate::raster::{self, Brush};
use crate::text;

verus! {

/// The rows of a letter, from the top, each of five dots. Letters that the
/// label does not need are blank.
pub open spec fn glyph_rows(ch: char) -> Seq<u8> {
    if ch == 'A' {
        seq![0b01110, 0b10001, 0b10001, 0b11111, 0b10001, 0b10001, 0b10001]
    } else if ch == 'D' {
        seq![0b11110, 0b10001, 0b10001, 0b10001, 0b10001, 0b10001, 0b11110]
    } else if ch == 'E' {
        seq![0b11111, 0b10000, 0b10000, 0b11110, 0b10000, 0b10000, 0b11111]
    } else if ch == 'I' {
        seq![0b11111, 0b00100, 0b00100, 0b00100, 0b00100, 0b00100, 0b11111]
    } else if ch == 'L' {
        seq![0b10000, 0b10000, 0b10000, 0b10000, 0b10000, 0b10000, 0b11111]
    } else if ch == 'M' {
        seq![0b10001, 0b11011, 0b10101, 0b10101, 0b10001, 0b10001, 0b10001]
    } else if ch == 'O' {
        seq![0b01110, 0b10001, 0b10001, 0b10001, 0b10001, 0b10001, 0b01110]
    } else if ch == 'R' {
        seq![0b11110, 0b10001, 0b10001, 0b11110, 0b10100, 0b10010, 0b10001]
    } else if ch == 'T' {
        seq![0b11111, 0b00100, 0b00100, 0b00100, 0b00100, 0b00100, 0b00100]
    } else if ch == 'V' {
        seq![0b10001, 0b10001, 0b10001, 0b10001, 0b10001, 0b01010, 0b00100]
    } else {
        seq![0, 0, 0, 0, 0, 0, 0]
    }
}

/// What a dot counts for in its row.
pub open spec fn dot_weight(col: int) -> int {
    if col == 0 {
        16
    } else if col == 1 {
        8
    } else if col == 2 {
        4
    } else if col == 3 {
        2
    } else {
        1
    }
}

/// A letter has a dot in a row and a column.
pub open spec fn has_dot(ch: char, row: int, col: int) -> bool {
    glyph_rows(ch)[row] as int / dot_weight(col) % 2 == 1
}

/// The rows of a letter, from the top, each of five dots.
pub fn glyph_5x7(ch: char) -> (rows: [u8; 7])
    ensures
        rows@ == glyph_rows(ch),
{
    let rows: [u8; 7] = match ch {
        'A' => [0b01110, 0b10001, 0b10001, 0b11111, 0b10001, 0b10001, 0b10001],
        'D' => [0b11110, 0b10001, 0b10001, 0b10001, 0b10001, 0b10001, 0b11110],
        'E' => [0b11111, 0b10000, 0b10000, 0b11110, 0b10000, 0b10000, 0b11111],
        'I' => [0b11111, 0b00100, 0b00100, 0b00100, 0b00100, 0b00100, 0b11111],
        'L' => [0b10000, 0b10000, 0b10000, 0b10000, 0b10000, 0b10000, 0b11111],
        'M' => [0b10001, 0b11011, 0b10101, 0b10101, 0b10001, 0b10001, 0b10001],
        'O' => [0b01110, 0b10001, 0b10001, 0b10001, 0b10001, 0b10001, 0b01110],
        'R' => [0b11110, 0b10001, 0b10001, 0b11110, 0b10100, 0b10010, 0b10001],
        'T' => [0b11111, 0b00100, 0b00100, 0b00100, 0b00100, 0b00100, 0b00100],
        'V' => [0b10001, 0b10001, 0b10001, 0b10001, 0b10001, 0b01010, 0b00100],
        _ => [0, 0, 0, 0, 0, 0, 0],
    };
    assert(rows@ =~= glyph_rows(ch));
    rows
}

/// How far a character moves the pen: a space takes four dots, a letter six.
pub open spec fn advance(ch: char, scale: int) -> int {
    if ch == ' ' {
        scale * 4
    } else {
        scale * 6
    }
}

/// Where character `k` of a text begins.
pub open spec fn pen(s: Seq<char>, x: int, scale: int, k: int) -> int
    decreases k,
{
    if k <= 0 {
        x
    } else {
        pen(s, x, scale, k - 1) + advance(s[k - 1], scale)
    }
}

/// A dot of a text: a letter has it there.
pub open spec fn is_dot(s: Seq<char>, k: int, row: int, col: int) -> bool {
    0 <= k < s.len() && 0 <= row < 7 && 0 <= col < 5 && s[k] != ' ' && has_dot(s[k], row, col)
}

/// A pixel of a dot.
pub open spec fn in_dot(
    s: Seq<char>,
    x: int,
    y: int,
    scale: int,
    k: int,
    row: int,
    col: int,
    px: int,
    py: int,
) -> bool {
    is_dot(s, k, row, col) && raster::rect(
        pen(s, x, scale, k) + col * scale,
        y + row * scale,
        scale,
        scale,
    )(px, py)
}

/// A dot comes before another one, character by character and row by row.
pub open spec fn sooner(k: int, row: int, col: int, k2: int, row2: int, col2: int) -> bool {
    k < k2 || (k == k2 && (row < row2 || (row == row2 && col < col2)))
}

/// The dots of a text before a place in it.
pub open spec fn letters_before(
    s: Seq<char>,
    x: int,
    y: int,
    scale: int,
    k2: int,
    row2: int,
    col2: int,
) -> spec_fn(int, int) -> bool {
    |px: int, py: int|
        exists|k: int, row: int, col: int| #[trigger]
            in_dot(s, x, y, scale, k, row, col, px, py) && sooner(k, row, col, k2, row2, col2)
}

/// A text in dots of `scale` pixels.
pub open spec fn letters(s: Seq<char>, x: int, y: int, scale: int) -> spec_fn(int, int) -> bool {
    |px: int, py: int|
        exists|k: int, row: int, col: int| #[trigger]
            in_dot(s, x, y, scale, k, row, col, px, py)
}

/// A text that can be drawn: the pen and the corners of the dots are `i32`s, and
/// every dot can be filled.
pub open spec fn letters_fit(s: Seq<char>, x: int, y: int, scale: int) -> bool {
    &&& forall|k: int|
        0 <= k < s.len() ==> raster::fits_i32(advance(#[trigger] s[k], scale)) && raster::fits_i32(
            pen(s, x, scale, k + 1),
        )
    &&& forall|k: int, row: int, col: int| #[trigger]
        is_dot(s, k, row, col) ==> {
            &&& raster::fits_i32(col * scale)
            &&& raster::fits_i32(row * scale)
            &&& raster::fits_i32(pen(s, x, scale, k) + col * scale)
            &&& raster::fits_i32(y + row * scale)
            &&& canvas::rect_fits(
                pen(s, x, scale, k) + col * scale,
                y + row * scale,
                scale,
                scale,
            )
        }
}

/// A text that lies on the screen can be drawn.
pub proof fn lemma_letters_fit(s: Seq<char>, x: int, y: int, scale: int)
    requires
        0 <= x,
        0 <= y,
        1 <= scale,
        x + scale * 6 * s.len() <= SCREEN_W,
        y + scale * 7 <= SCREEN_H,
    ensures
        letters_fit(s, x, y, scale),
{
    assert forall|k: int| 0 <= k < s.len() implies raster::fits_i32(
        advance(#[trigger] s[k], scale),
    ) && raster::fits_i32(pen(s, x, scale, k + 1)) by {
        lemma_pen(s, x, scale, k + 1);
        assert(scale * 6 * (k + 1) <= scale * 6 * s.len()) by (nonlinear_arith)
            requires
                k + 1 <= s.len(),
                1 <= scale,
        ;
        assert(scale * 6 <= scale * 6 * (k + 1)) by (nonlinear_arith)
            requires
                0 <= k,
                1 <= scale,
        ;
    }
    assert forall|k: int, row: int, col: int| #[trigger] is_dot(s, k, row, col) implies {
        &&& raster::fits_i32(col * scale)
        &&& raster::fits_i32(row * scale)
        &&& raster::fits_i32(pen(s, x, scale, k) + col * scale)
        &&& raster::fits_i32(y + row * scale)
        &&& canvas::rect_fits(pen(s, x, scale, k) + col * scale, y + row * scale, scale, scale)
    } by {
        lemma_pen(s, x, scale, k);
        assert(0 <= col * scale && col * scale + scale <= 5 * scale && 0 <= row * scale && row
            * scale + scale <= 7 * scale) by (nonlinear_arith)
            requires
                0 <= col < 5,
                0 <= row < 7,
                1 <= scale,
        ;
        assert(scale * 6 * k + scale * 6 <= scale * 6 * s.len()) by (nonlinear_arith)
            requires
                k + 1 <= s.len(),
                1 <= scale,
        ;
    }
}

proof fn lemma_pen(s: Seq<char>, x: int, scale: int, k: int)
    requires
        0 <= k,
        1 <= scale,
    ensures
        x <= pen(s, x, scale, k) <= x + scale * 6 * k,
    decreases k,
{
    if k > 0 {
        lemma_pen(s, x, scale, k - 1);
        assert(scale * 6 * k == scale * 6 * (k - 1) + scale * 6) by (nonlinear_arith);
    } else {
        assert(scale * 6 * 0 == 0);
    }
}

/// Whether a row of dots has one in a column.
fn row_has_dot(bits: u8, col: usize) -> (r: bool)
    requires
        col < 5,
    ensures
        r == (bits as int / dot_weight(col as int) % 2 == 1),
{
    let weight: u8 = if col == 0 {
        16
    } else if col == 1 {
        8
    } else if col == 2 {
        4
    } else if col == 3 {
        2
    } else {
        1
    };
    bits / weight % 2 == 1
}

/// Draws a text in dots of `scale` pixels.
pub fn draw_text(buf: &mut [u32], x: i32, y: i32, s: &str, scale: i32, color: u32)
    requires
        canvas::screen(old(buf)@),
        letters_fit(s@, x as int, y as int, scale as int),
    ensures
        final(buf)@ == canvas::painted(
            old(buf)@,
            letters(s@, x as int, y as int, scale as int),
            color,
        ),
{
    let ghost before = buf@;
    let ghost w = SCREEN_W as int;
    let ghost h = SCREEN_H as int;
    let ghost brush = Brush::Flat(color);
    let ghost xi = x as int;
    let ghost yi = y as int;
    let ghost sc = scale as int;
    let cs = text::chars_of(s);
    let mut cx: i32 = x;
    let mut k: usize = 0;
    proof {
        let none = letters_before(s@, xi, yi, sc, 0, 0, 0);
        raster::lemma_paint_nothing(before, w, h, none, brush);
    }
    while k < cs.len()
        invariant
            w == SCREEN_W,
            h == SCREEN_H,
            brush == Brush::Flat(color),
            xi == x,
            yi == y,
            sc == scale,
            cs@ == s@,
            canvas::screen(before),
            letters_fit(s@, xi, yi, sc),
            k <= cs@.len(),
            cx == pen(s@, xi, sc, k as int),
            buf@ == canvas::painted(before, letters_before(s@, xi, yi, sc, k as int, 0, 0), color),
        decreases cs@.len() - k,
    {
        let ch = cs[k];
        assert(ch == s@[k as int]);
        assert(raster::fits_i32(advance(s@[k as int], sc)));
        if ch == ' ' {
            proof {
                let r1 = letters_before(s@, xi, yi, sc, k as int, 0, 0);
                let r2 = letters_before(s@, xi, yi, sc, k + 1, 0, 0);
                assert forall|px: int, py: int| 0 <= px < w && 0 <= py < h implies (
                #[trigger] r1(px, py) <==> r2(px, py)) by {
                    lemma_same_letters(s@, xi, yi, sc, k as int, 0, 0, k + 1, 0, 0, px, py);
                }
                raster::lemma_paint_same(before, w, h, r1, r2, brush);
            }
            cx += scale * 4;
        } else {
            let glyph = glyph_5x7(ch);
            let mut row: usize = 0;
            while row < 7
                invariant
                    w == SCREEN_W,
                    h == SCREEN_H,
                    brush == Brush::Flat(color),
                    xi == x,
                    yi == y,
                    sc == scale,
                    canvas::screen(before),
                    letters_fit(s@, xi, yi, sc),
                    k < s@.len(),
                    ch == s@[k as int],
                    ch != ' ',
                    glyph@ == glyph_rows(ch),
                    cx == pen(s@, xi, sc, k as int),
                    row <= 7,
                    buf@ == canvas::painted(
                        before,
                        letters_before(s@, xi, yi, sc, k as int, row as int, 0),
                        color,
                    ),
                decreases 7 - row,
            {
                let bits: u8 = glyph[row];
                let mut col: usize = 0;
                while col < 5
                    invariant
                        w == SCREEN_W,
                        h == SCREEN_H,
                        brush == Brush::Flat(color),
                        xi == x,
                        yi == y,
                        sc == scale,
                        canvas::screen(before),
                        letters_fit(s@, xi, yi, sc),
                        k < s@.len(),
                        ch == s@[k as int],
                        ch != ' ',
                        bits == glyph_rows(ch)[row as int],
                        cx == pen(s@, xi, sc, k as int),
                        row < 7,
                        col <= 5,
                        buf@ == canvas::painted(
                            before,
                            letters_before(s@, xi, yi, sc, k as int, row as int, col as int),
                            color,
                        ),
                    decreases 5 - col,
                {
                    let ghost r1 = letters_before(
                        s@,
                        xi,
                        yi,
                        sc,
                        k as int,
                        row as int,
                        col as int,
                    );
                    let ghost r2 = letters_before(
                        s@,
                        xi,
                        yi,
                        sc,
                        k as int,
                        row as int,
                        col + 1,
                    );
                    if row_has_dot(bits, col) {
                        assert(is_dot(s@, k as int, row as int, col as int));
                        canvas::fill_rect_u32(
                            buf,
                            cx + col as i32 * scale,
                            y + row as i32 * scale,
                            scale,
                            scale,
                            color,
                        );
                        proof {
                            let cell = raster::rect(
                                pen(s@, xi, sc, k as int) + col * sc,
                                yi + row * sc,
                                sc,
                                sc,
                            );
                            assert forall|px: int, py: int| 0 <= px < w && 0 <= py < h implies (
                            #[trigger] r2(px, py) <==> (r1(px, py) || cell(px, py))) by {
                                lemma_next_letter(
                                    s@,
                                    xi,
                                    yi,
                                    sc,
                                    k as int,
                                    row as int,
                                    col as int,
                                    px,
                                    py,
                                );
                            }
                            raster::lemma_paint_union(before, w, h, r1, cell, r2, brush);
                        }
                    } else {
                        proof {
                            assert(!is_dot(s@, k as int, row as int, col as int));
                            assert forall|px: int, py: int| 0 <= px < w && 0 <= py < h implies (
                            #[trigger] r1(px, py) <==> r2(px, py)) by {
                                lemma_next_letter(
                                    s@,
                                    xi,
                                    yi,
                                    sc,
                                    k as int,
                                    row as int,
                                    col as int,
                                    px,
                                    py,
                                );
                            }
                            raster::lemma_paint_same(before, w, h, r1, r2, brush);
                        }
                    }
                    col += 1;
                }
                proof {
                    let r1 = letters_before(s@, xi, yi, sc, k as int, row as int, 5);
                    let r2 = letters_before(s@, xi, yi, sc, k as int, row + 1, 0);
                    assert forall|px: int, py: int| 0 <= px < w && 0 <= py < h implies (
                    #[trigger] r1(px, py) <==> r2(px, py)) by {
                        lemma_same_letters(
                            s@,
                            xi,
                            yi,
                            sc,
                            k as int,
                            row as int,
                            5,
                            k as int,
                            row + 1,
                            0,
                            px,
                            py,
                        );
                    }
                    raster::lemma_paint_same(before, w, h, r1, r2, brush);
                }
                row += 1;
            }
            proof {
                let r1 = letters_before(s@, xi, yi, sc, k as int, 7, 0);
                let r2 = letters_before(s@, xi, yi, sc, k + 1, 0, 0);
                assert forall|px: int, py: int| 0 <= px < w && 0 <= py < h implies (
                #[trigger] r1(px, py) <==> r2(px, py)) by {
                    lemma_same_letters(s@, xi, yi, sc, k as int, 7, 0, k + 1, 0, 0, px, py);
                }
                raster::lemma_paint_same(before, w, h, r1, r2, brush);
            }
            cx += scale * 6;
        }
        k += 1;
    }
    proof {
        let r1 = letters_before(s@, xi, yi, sc, k as int, 0, 0);
        let r2 = letters(s@, xi, yi, sc);
        assert forall|px: int, py: int| 0 <= px < w && 0 <= py < h implies (#[trigger] r1(px, py)
            <==> r2(px, py)) by {
            if r2(px, py) {
                let (k1, row, col) = choose|k1: int, row: int, col: int| #[trigger]
                    in_dot(s@, xi, yi, sc, k1, row, col, px, py);
                assert(in_dot(s@, xi, yi, sc, k1, row, col, px, py));
                assert(sooner(k1, row, col, k as int, 0, 0));
            }
        }
        raster::lemma_paint_same(before, w, h, r1, r2, brush);
    }
}

/// Between two places with no dot from the one up to the other, the letters are
/// the same.
proof fn lemma_same_letters(
    s: Seq<char>,
    x: int,
    y: int,
    scale: int,
    k1: int,
    row1: int,
    col1: int,
    k2: int,
    row2: int,
    col2: int,
    px: int,
    py: int,
)
    requires
        forall|k: int, row: int, col: int| #[trigger]
            is_dot(s, k, row, col) ==> (sooner(k, row, col, k1, row1, col1) <==> sooner(
                k,
                row,
                col,
                k2,
                row2,
                col2,
            )),
    ensures
        letters_before(s, x, y, scale, k1, row1, col1)(px, py) <==> letters_before(
            s,
            x,
            y,
            scale,
            k2,
            row2,
            col2,
        )(px, py),
{
    if letters_before(s, x, y, scale, k1, row1, col1)(px, py) {
        let (k, row, col) = choose|k: int, row: int, col: int| #[trigger]
            in_dot(s, x, y, scale, k, row, col, px, py) && sooner(k, row, col, k1, row1, col1);
        assert(is_dot(s, k, row, col));
        assert(in_dot(s, x, y, scale, k, row, col, px, py) && sooner(k, row, col, k2, row2, col2));
    }
    if letters_before(s, x, y, scale, k2, row2, col2)(px, py) {
        let (k, row, col) = choose|k: int, row: int, col: int| #[trigger]
            in_dot(s, x, y, scale, k, row, col, px, py) && sooner(k, row, col, k2, row2, col2);
        assert(is_dot(s, k, row, col));
        assert(in_dot(s, x, y, scale, k, row, col, px, py) && sooner(k, row, col, k1, row1, col1));
    }
}

/// The letters up to the next dot are those up to this one, and this one.
proof fn lemma_next_letter(
    s: Seq<char>,
    x: int,
    y: int,
    scale: int,
    k1: int,
    row1: int,
    col1: int,
    px: int,
    py: int,
)
    ensures
        letters_before(s, x, y, scale, k1, row1, col1 + 1)(px, py) <==> (letters_before(
            s,
            x,
            y,
            scale,
            k1,
            row1,
            col1,
        )(px, py) || in_dot(s, x, y, scale, k1, row1, col1, px, py)),
{
    if letters_before(s, x, y, scale, k1, row1, col1 + 1)(px, py) {
        let (k, row, col) = choose|k: int, row: int, col: int| #[trigger]
            in_dot(s, x, y, scale, k, row, col, px, py) && sooner(k, row, col, k1, row1, col1 + 1);
        assert(in_dot(s, x, y, scale, k, row, col, px, py));
        if !sooner(k, row, col, k1, row1, col1) {
            assert(k == k1 && row == row1 && col == col1);
        }
    }
    if letters_before(s, x, y, scale, k1, row1, col1)(px, py) {
        let (k, row, col) = choose|k: int, row: int, col: int| #[trigger]
            in_dot(s, x, y, scale, k, row, col, px, py) && sooner(k, row, col, k1, row1, col1);
        assert(in_dot(s, x, y, scale, k, row, col, px, py) && sooner(
            k,
            row,
            col,
            k1,
            row1,
            col1 + 1,
        ));
    }
    if in_dot(s, x, y, scale, k1, row1, col1, px, py) {
        assert(sooner(k1, row1, col1, k1, row1, col1 + 1));
    }
}

} // verus!
