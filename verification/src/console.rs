//! The text console: glyphs of a font drawn cell by cell on the screen, with
//! a cursor that wraps at the right edge and scrolls at the bottom.

use crate::psf2::Psf2Font;
use crate::screen::{lemma_place_in_range, Color, Screen};
use vstd::prelude::*;
use vstd::slice::slice_subrange;
use vstd::string::StrSliceExecFns;

verus! {

pub struct Console {
    pub font: Psf2Font,
    pub background: Color,
    pub foreground: Color,
    pub width: usize,
    pub height: usize,
    pub x: usize,
    pub y: usize,
    pub padding_x: usize,
    pub padding_y: usize,
}

/// Whether bit `x` of row `y` of a glyph is set.
pub open spec fn glyph_bit(glyph_bytes: Seq<u8>, x: int, y: int) -> bool {
    glyph_bytes[y] & (1u8 << (x as u8)) != 0
}

/// Whether `ch` is an ASCII character.
pub open spec fn is_ascii(ch: char) -> bool {
    (ch as u32) < 128
}

/// The pixels once the rows of cells from `top` to `rows` have moved up by
/// one row of cells, `row_unit` pixels, and the last row of cells and what
/// lies below it is `background`.
pub open spec fn scrolled(
    colors: Seq<Color>,
    row_unit: int,
    top: int,
    rows: int,
    background: Color,
) -> Seq<Color> {
    Seq::new(
        colors.len(),
        |p: int|
            if p >= (rows - 1) * row_unit {
                background
            } else if p >= (top - 1) * row_unit {
                colors[p + row_unit]
            } else {
                colors[p]
            },
    )
}

impl Console {
    /// The width of a glyph in pixels.
    pub open spec fn glyph_width(&self) -> int {
        self.font.header.glyph_width as int
    }

    /// The height of a glyph in pixels.
    pub open spec fn glyph_height(&self) -> int {
        self.font.header.glyph_height as int
    }

    /// The console fits `screen`: glyphs are 1 to 8 pixels wide and at least
    /// one high, all cells of the console lie on the screen, and so do the
    /// cell of the cursor and the cell where a line starts.
    pub open spec fn fits(&self, screen: &Screen) -> bool {
        &&& screen.wf()
        &&& 1 <= self.glyph_width() <= 8
        &&& 1 <= self.glyph_height()
        &&& self.height >= 1
        &&& self.padding_y >= 1
        &&& self.width * self.glyph_width() <= screen.width
        &&& self.height * self.glyph_height() <= screen.height
        &&& (self.padding_x + 1) * self.glyph_width() <= screen.width
        &&& (self.x + 1) * self.glyph_width() <= screen.width
        &&& self.y < self.height
    }

    /// Where the glyph of `ch` starts in the font's data: glyph 0 for a
    /// character that is not ASCII.
    pub open spec fn glyph_start(&self, ch: char) -> int {
        if !is_ascii(ch) {
            0
        } else {
            ((ch as u32) as int * self.glyph_height()) % (self.font.data@.len() as int)
        }
    }

    /// Whether the glyph of `ch` lies in the font's data.
    pub open spec fn has_glyph(&self, ch: char) -> bool {
        self.font.data@.len() > 0 && self.glyph_start(ch) + self.glyph_height()
            <= self.font.data@.len()
    }

    /// A console for `font` on a screen of `screen_width` by `screen_height`
    /// pixels, white on black, with two cells kept free at the left and one
    /// row at the top.
    pub fn new(font: Psf2Font, screen_width: usize, screen_height: usize) -> (r: Console)
        requires
            font.header.glyph_width > 0,
            font.header.glyph_height > 0,
            screen_width / (font.header.glyph_width as usize) >= 2,
            screen_height / (font.header.glyph_height as usize) >= 1,
        ensures
            r.font == font,
            r.background == (Color { b: 0, g: 0, r: 0, padding: 0 }),
            r.foreground == (Color { b: 255, g: 255, r: 255, padding: 0 }),
            r.width == screen_width / (font.header.glyph_width as usize) - 2,
            r.height == screen_height / (font.header.glyph_height as usize) - 1,
            r.x == 2 && r.y == 1 && r.padding_x == 2 && r.padding_y == 1,
    {
        let padding_x: usize = 2;
        let padding_y: usize = 1;
        let width: usize = (screen_width / font.header.glyph_width as usize) - padding_x;
        let height: usize = (screen_height / font.header.glyph_height as usize) - padding_y;
        Console {
            font,
            background: Color::black(),
            foreground: Color::white(),
            width,
            height,
            x: padding_x,
            y: padding_y,
            padding_x,
            padding_y,
        }
    }

    /// Gives the whole screen the background colour and puts the cursor
    /// where the first line starts.
    pub fn clear(&mut self, screen: &mut Screen)
        ensures
            final(self).x == old(self).padding_x,
            final(self).y == old(self).padding_y,
            final(self).font == old(self).font,
            final(self).background == old(self).background,
            final(self).foreground == old(self).foreground,
            final(self).width == old(self).width,
            final(self).height == old(self).height,
            final(self).padding_x == old(self).padding_x,
            final(self).padding_y == old(self).padding_y,
            final(screen).width == old(screen).width,
            final(screen).height == old(screen).height,
            final(screen).colors@.len() == old(screen).colors@.len(),
            forall|p: int|
                0 <= p < final(screen).colors@.len() ==> #[trigger] final(screen).colors@[p]
                    == old(self).background,
    {
        screen.fill(self.background);
        self.x = self.padding_x;
        self.y = self.padding_y;
    }

    /// The rows of the glyph that starts at `index` of the font's data.
    pub fn get_glyph_bytes(&self, index: usize) -> (r: &[u8])
        requires
            index + self.glyph_height() <= self.font.data.len(),
        ensures
            r@ == self.font.data@.subrange(index as int, index + self.glyph_height()),
    {
        slice_subrange(
            self.font.data.as_slice(),
            index,
            index + self.font.header.glyph_height as usize,
        )
    }

    /// Whether the pixel in column `x`, counted from the right, of row `y`
    /// of a glyph is set.
    pub fn get_glyph_bit(&self, glyph_bytes: &[u8], x: usize, y: usize) -> (r: bool)
        requires
            x < 8,
            y < glyph_bytes@.len(),
        ensures
            r == glyph_bit(glyph_bytes@, x as int, y as int),
    {
        (glyph_bytes[y] & (1u8 << (x as u8))) != 0
    }

    /// The colour of the pixel (`px`, `py`) once the glyph is drawn in the
    /// cursor's cell: in the cell, the foreground where the glyph's bit is
    /// set and the background where it is not; elsewhere what it was.
    pub open spec fn drawn(
        &self,
        colors: Seq<Color>,
        width: int,
        glyph_bytes: Seq<u8>,
        px: int,
        py: int,
    ) -> Color {
        let dx = px - self.x * self.glyph_width();
        let dy = py - self.y * self.glyph_height();
        if 0 <= dx < self.glyph_width() && 0 <= dy < self.glyph_height() {
            if glyph_bit(glyph_bytes, self.glyph_width() - 1 - dx, dy) {
                self.foreground
            } else {
                self.background
            }
        } else {
            colors[px + py * width]
        }
    }

    /// All pixels once the glyph is drawn in the cursor's cell.
    pub open spec fn drawn_colors(&self, colors: Seq<Color>, width: int, glyph_bytes: Seq<u8>)
        -> Seq<Color> {
        Seq::new(colors.len(), |p: int| self.drawn(colors, width, glyph_bytes, p % width, p / width))
    }

    /// The rows of the glyph of `ch`.
    pub open spec fn glyph_of(&self, ch: char) -> Seq<u8> {
        self.font.data@.subrange(self.glyph_start(ch), self.glyph_start(ch) + self.glyph_height())
    }

    /// Whether the cursor, moving on, goes to the start of a line.
    pub open spec fn wraps(&self, line_break: bool) -> bool {
        self.x + 1 >= self.width || line_break
    }

    /// The console and the pixels of a screen `width` pixels wide once the
    /// cursor has moved on.
    pub open spec fn after_advance(&self, colors: Seq<Color>, width: int, line_break: bool) -> (
        Console,
        Seq<Color>,
    ) {
        if !self.wraps(line_break) {
            (Console { x: (self.x + 1) as usize, ..*self }, colors)
        } else if self.y + 1 >= self.height {
            (
                Console { x: self.padding_x, y: (self.height - 1) as usize, ..*self },
                scrolled(
                    colors,
                    width * self.glyph_height(),
                    self.padding_y as int,
                    self.height as int,
                    self.background,
                ),
            )
        } else {
            (Console { x: self.padding_x, y: (self.y + 1) as usize, ..*self }, colors)
        }
    }

    /// The console and the pixels once `ch` has been written: its glyph is
    /// drawn, unless it is a line break, and the cursor has moved on.
    pub open spec fn after_char(&self, colors: Seq<Color>, width: int, ch: char) -> (
        Console,
        Seq<Color>,
    ) {
        let painted = if ch == '\n' {
            colors
        } else {
            self.drawn_colors(colors, width, self.glyph_of(ch))
        };
        self.after_advance(painted, width, ch == '\n')
    }

    /// The console and the pixels once the characters of `s` have been
    /// written one after the other.
    pub open spec fn after_str(&self, colors: Seq<Color>, width: int, s: Seq<char>) -> (
        Console,
        Seq<Color>,
    )
        decreases s.len(),
    {
        if s.len() == 0 {
            (*self, colors)
        } else {
            let before = self.after_str(colors, width, s.drop_last());
            before.0.after_char(before.1, width, s.last())
        }
    }

    /// Draws the glyph in the cursor's cell.
    pub fn write_glyph(&self, screen: &mut Screen, glyph_bytes: &[u8])
        requires
            self.fits(old(screen)),
            glyph_bytes@.len() >= self.glyph_height(),
        ensures
            final(screen).wf(),
            final(screen).width == old(screen).width,
            final(screen).height == old(screen).height,
            forall|px: int, py: int|
                0 <= px < old(screen).width && 0 <= py < old(screen).height
                    ==> #[trigger] final(screen).pixel(px, py) == self.drawn(
                    old(screen).colors@,
                    old(screen).width as int,
                    glyph_bytes@,
                    px,
                    py,
                ),
            final(screen).colors@ == self.drawn_colors(
                old(screen).colors@,
                old(screen).width as int,
                glyph_bytes@,
            ),
    {
        let glyph_width: usize = self.font.header.glyph_width as usize;
        let glyph_height: usize = self.font.header.glyph_height as usize;
        proof {
            lemma_cell_on_screen(
                self.x as int,
                glyph_width as int,
                screen.width as int,
                self.width as int,
            );
            lemma_cell_on_screen(
                self.y as int,
                glyph_height as int,
                screen.height as int,
                self.height as int,
            );
        }
        let x: usize = self.x * glyph_width;
        let y: usize = self.y * glyph_height;
        let mut dx: usize = 0;
        while dx < glyph_width
            invariant
                dx <= glyph_width,
                self.fits(old(screen)),
                glyph_width == self.glyph_width(),
                glyph_height == self.glyph_height(),
                glyph_bytes@.len() >= glyph_height,
                x == self.x * glyph_width,
                y == self.y * glyph_height,
                x + glyph_width <= screen.width,
                y + glyph_height <= screen.height,
                screen.wf(),
                screen.width == old(screen).width,
                screen.height == old(screen).height,
                forall|px: int, py: int|
                    0 <= px < screen.width && 0 <= py < screen.height
                        ==> #[trigger] screen.pixel(px, py) == (if px - x < dx {
                        self.drawn(old(screen).colors@, old(screen).width as int, glyph_bytes@, px, py)
                    } else {
                        old(screen).pixel(px, py)
                    }),
            decreases glyph_width - dx,
        {
            let mut dy: usize = 0;
            while dy < glyph_height
                invariant
                    dx < glyph_width,
                    dy <= glyph_height,
                    self.fits(old(screen)),
                    glyph_width == self.glyph_width(),
                    glyph_height == self.glyph_height(),
                    glyph_bytes@.len() >= glyph_height,
                    x == self.x * glyph_width,
                    y == self.y * glyph_height,
                    x + glyph_width <= screen.width,
                    y + glyph_height <= screen.height,
                    screen.wf(),
                    screen.width == old(screen).width,
                    screen.height == old(screen).height,
                    forall|px: int, py: int|
                        0 <= px < screen.width && 0 <= py < screen.height
                            ==> #[trigger] screen.pixel(px, py) == (if px - x < dx || (px - x
                            == dx && y <= py < y + dy) {
                            self.drawn(old(screen).colors@, old(screen).width as int, glyph_bytes@, px, py)
                        } else {
                            old(screen).pixel(px, py)
                        }),
                decreases glyph_height - dy,
            {
                let font_bit: bool = self.get_glyph_bit(glyph_bytes, glyph_width - 1 - dx, dy);
                let color: Color = if font_bit {
                    self.foreground
                } else {
                    self.background
                };
                let ghost earlier = *screen;
                proof {
                    lemma_place_in_range(
                        x + dx,
                        y + dy,
                        screen.width as int,
                        screen.height as int,
                    );
                    assert(0 <= (y + dy) * screen.width) by (nonlinear_arith)
                        requires
                            0 <= y + dy,
                            0 <= screen.width,
                    ;
                }
                screen.colors[(x + dx) + (y + dy) * screen.width] = color;
                proof {
                    assert forall|px: int, py: int|
                        0 <= px < screen.width && 0 <= py
                            < screen.height implies #[trigger] screen.pixel(px, py) == (if px - x
                        < dx || (px - x == dx && y <= py < y + dy + 1) {
                        self.drawn(old(screen).colors@, old(screen).width as int, glyph_bytes@, px, py)
                    } else {
                        old(screen).pixel(px, py)
                    }) by {
                        lemma_place_in_range(px, py, screen.width as int, screen.height as int);
                        lemma_place_distinct(px, py, x + dx, y + dy, screen.width as int);
                        assert(earlier.pixel(px, py) == (if px - x < dx || (px - x == dx && y
                            <= py < y + dy) {
                            self.drawn(old(screen).colors@, old(screen).width as int, glyph_bytes@, px, py)
                        } else {
                            old(screen).pixel(px, py)
                        }));
                        if px == x + dx && py == y + dy {
                            assert(px - self.x * self.glyph_width() == dx);
                            assert(py - self.y * self.glyph_height() == dy);
                        }
                    }
                }
                dy += 1;
            }
            dx += 1;
        }
        proof {
            let width = screen.width as int;
            let height = screen.height as int;
            assert forall|p: int| 0 <= p < screen.colors@.len() implies screen.colors@[p]
                == self.drawn(old(screen).colors@, width, glyph_bytes@, p % width, p / width) by {
                lemma_pixel_of_place(p, width, height);
                assert(screen.pixel(p % width, p / width) == screen.colors@[p]);
            }
            assert(screen.colors@ =~= self.drawn_colors(old(screen).colors@, width, glyph_bytes@));
        }
    }

    /// Moves the cursor one cell on. At the right edge, and at a line break,
    /// it goes to the start of the next line; where there is no next line,
    /// the lines move up by one and the cursor stays in the last.
    pub fn advance(&mut self, screen: &mut Screen, line_break: bool)
        requires
            old(self).fits(old(screen)),
        ensures
            final(self).fits(final(screen)),
            final(screen).width == old(screen).width,
            final(screen).height == old(screen).height,
            (*final(self), final(screen).colors@) == old(self).after_advance(
                old(screen).colors@,
                old(screen).width as int,
                line_break,
            ),
    {
        let glyph_width: usize = self.font.header.glyph_width as usize;
        let glyph_height: usize = self.font.header.glyph_height as usize;
        proof {
            assert(self.x + 1 <= (self.x + 1) * glyph_width) by (nonlinear_arith)
                requires
                    glyph_width >= 1,
                    self.x >= 0,
            ;
        }
        if self.x + 1 >= self.width || line_break {
            self.x = self.padding_x;
            self.y += 1;
            if self.y >= self.height {
                self.scroll(screen);
                self.y = self.height - 1;
            }
        } else {
            proof {
                assert((self.x + 2) * glyph_width <= self.width * glyph_width)
                    by (nonlinear_arith)
                    requires
                        self.x + 2 <= self.width,
                        glyph_width >= 0,
                ;
            }
            self.x += 1;
        }
    }

    /// Moves the lines up by one and gives the last line the background
    /// colour.
    fn scroll(&self, screen: &mut Screen)
        requires
            old(screen).wf(),
            self.height >= 1,
            self.padding_y >= 1,
            self.glyph_height() >= 1,
            self.height * self.glyph_height() <= old(screen).height,
        ensures
            final(screen).wf(),
            final(screen).width == old(screen).width,
            final(screen).height == old(screen).height,
            final(screen).colors@ == scrolled(
                old(screen).colors@,
                old(screen).width * self.glyph_height(),
                self.padding_y as int,
                self.height as int,
                self.background,
            ),
    {
        let count: usize = screen.colors.len();
        let glyph_height: usize = self.font.header.glyph_height as usize;
        proof {
            assert(self.height * (screen.width * glyph_height) <= screen.width * screen.height)
                by (nonlinear_arith)
                requires
                    self.height * glyph_height <= screen.height,
                    screen.width >= 0,
            ;
            assert((self.height - 1) * (screen.width * glyph_height) + screen.width
                * glyph_height == self.height * (screen.width * glyph_height))
                by (nonlinear_arith);
            assert(screen.width * glyph_height >= 0) by (nonlinear_arith)
                requires
                    screen.width >= 0,
                    glyph_height >= 0,
            ;
            assert((self.height - 1) * (screen.width * glyph_height) >= 0) by (nonlinear_arith)
                requires
                    self.height >= 1,
                    screen.width * glyph_height >= 0,
            ;
        }
        let row_unit: usize = screen.width * glyph_height;
        let last: usize = (self.height - 1) * row_unit;
        let first: usize = if self.padding_y <= self.height {
            proof {
                assert((self.padding_y - 1) * row_unit <= (self.height - 1) * row_unit)
                    by (nonlinear_arith)
                    requires
                        1 <= self.padding_y <= self.height,
                        row_unit >= 0,
                ;
            }
            (self.padding_y - 1) * row_unit
        } else {
            proof {
                assert((self.padding_y - 1) * row_unit >= (self.height - 1) * row_unit)
                    by (nonlinear_arith)
                    requires
                        self.padding_y > self.height,
                        self.height >= 1,
                        row_unit >= 0,
                ;
            }
            last
        };
        let mut p: usize = first;
        while p < last
            invariant
                first <= p <= last,
                last + row_unit <= count,
                count == screen.colors@.len(),
                screen.wf(),
                screen.width == old(screen).width,
                screen.height == old(screen).height,
                forall|q: int|
                    0 <= q < count ==> #[trigger] screen.colors@[q] == (if first <= q < p {
                        old(screen).colors@[q + row_unit]
                    } else {
                        old(screen).colors@[q]
                    }),
            decreases last - p,
        {
            let color: Color = screen.colors[p + row_unit];
            screen.colors[p] = color;
            p += 1;
        }
        let mut q: usize = last;
        while q < count
            invariant
                last <= q <= count,
                first <= last,
                count == screen.colors@.len(),
                screen.wf(),
                screen.width == old(screen).width,
                screen.height == old(screen).height,
                forall|k: int|
                    0 <= k < count ==> #[trigger] screen.colors@[k] == (if last <= k < q {
                        self.background
                    } else if first <= k < last {
                        old(screen).colors@[k + row_unit]
                    } else {
                        old(screen).colors@[k]
                    }),
            decreases count - q,
        {
            screen.colors[q] = self.background;
            q += 1;
        }
        proof {
            assert(screen.colors@ =~= scrolled(
                old(screen).colors@,
                row_unit as int,
                self.padding_y as int,
                self.height as int,
                self.background,
            ));
        }
    }

    /// Writes `ch` at the cursor and moves the cursor on. A line break draws
    /// nothing; a character that is not ASCII is drawn as glyph 0.
    pub fn write_char(&mut self, screen: &mut Screen, ch: char)
        requires
            old(self).fits(old(screen)),
            ch != '\n' ==> old(self).has_glyph(ch),
        ensures
            final(self).fits(final(screen)),
            final(screen).width == old(screen).width,
            final(screen).height == old(screen).height,
            (*final(self), final(screen).colors@) == old(self).after_char(
                old(screen).colors@,
                old(screen).width as int,
                ch,
            ),
    {
        let code: u32 = ch as u32;
        if code >= 128 {
            let glyph = self.get_glyph_bytes(0);
            self.write_glyph(screen, glyph);
        } else if ch != '\n' {
            let count: usize = self.font.data.len();
            let glyph_height: u64 = self.font.header.glyph_height as u64;
            assert(code * glyph_height <= 128 * 0x1_0000_0000) by (nonlinear_arith)
                requires
                    code < 128,
                    0 <= glyph_height < 0x1_0000_0000,
            ;
            let index: usize = ((code as u64 * glyph_height) % (count as u64)) as usize;
            let glyph = self.get_glyph_bytes(index);
            self.write_glyph(screen, glyph);
        }
        self.advance(screen, ch == '\n');
    }

    /// Writes the characters of `s` one after the other.
    pub fn write_str(&mut self, screen: &mut Screen, s: &str)
        requires
            old(self).fits(old(screen)),
            forall|i: int|
                0 <= i < s@.len() && s@[i] != '\n' ==> old(self).has_glyph(#[trigger] s@[i]),
        ensures
            final(self).fits(final(screen)),
            final(screen).width == old(screen).width,
            final(screen).height == old(screen).height,
            (*final(self), final(screen).colors@) == old(self).after_str(
                old(screen).colors@,
                old(screen).width as int,
                s@,
            ),
    {
        let count: usize = s.unicode_len();
        let mut i: usize = 0;
        proof {
            assert(s@.take(0) =~= Seq::<char>::empty());
        }
        while i < count
            invariant
                i <= count,
                count == s@.len(),
                self.fits(screen),
                self.font == old(self).font,
                screen.width == old(screen).width,
                screen.height == old(screen).height,
                (*self, screen.colors@) == old(self).after_str(
                    old(screen).colors@,
                    old(screen).width as int,
                    s@.take(i as int),
                ),
                forall|k: int|
                    0 <= k < s@.len() && s@[k] != '\n' ==> old(self).has_glyph(#[trigger] s@[k]),
            decreases count - i,
        {
            let ch: char = s.get_char(i);
            proof {
                if ch != '\n' {
                    assert(old(self).has_glyph(s@[i as int]));
                }
                assert(s@.take(i + 1).drop_last() =~= s@.take(i as int));
                assert(s@.take(i + 1).last() == ch);
            }
            self.write_char(screen, ch);
            i += 1;
        }
        proof {
            assert(s@.take(count as int) =~= s@);
        }
    }
}

/// Every place on a screen is the place of one of its pixels.
proof fn lemma_pixel_of_place(p: int, width: int, height: int)
    requires
        0 <= p < width * height,
        0 < width,
    ensures
        0 <= p % width < width,
        0 <= p / width < height,
        p % width + (p / width) * width == p,
{
    vstd::arithmetic::div_mod::lemma_fundamental_div_mod(p, width);
    assert(width * (p / width) == (p / width) * width) by (nonlinear_arith);
    assert(0 <= p / width) by (nonlinear_arith)
        requires
            0 <= p,
            0 < width,
    ;
    if p / width >= height {
        assert((p / width) * width >= height * width) by (nonlinear_arith)
            requires
                p / width >= height,
                0 < width,
        ;
        assert(height * width == width * height) by (nonlinear_arith);
    }
}

/// A cell whose right edge is on the screen starts on the screen.
proof fn lemma_cell_on_screen(cell: int, size: int, extent: int, cells: int)
    requires
        0 <= cell,
        1 <= size,
        (cell + 1) * size <= extent || (cell < cells && cells * size <= extent),
    ensures
        0 <= cell * size,
        cell * size + size <= extent,
{
    assert(0 <= cell * size) by (nonlinear_arith)
        requires
            0 <= cell,
            1 <= size,
    ;
    assert((cell + 1) * size == cell * size + size) by (nonlinear_arith);
    if cell < cells {
        assert((cell + 1) * size <= cells * size) by (nonlinear_arith)
            requires
                cell + 1 <= cells,
                1 <= size,
        ;
    }
}

/// Two pixels of a row-by-row screen have the same place only if they are
/// the same pixel.
proof fn lemma_place_distinct(ax: int, ay: int, bx: int, by: int, width: int)
    requires
        0 <= ax < width,
        0 <= bx < width,
        0 <= ay,
        0 <= by,
    ensures
        ax + ay * width == bx + by * width <==> ax == bx && ay == by,
{
    if ay < by {
        assert(ay * width + width <= by * width) by (nonlinear_arith)
            requires
                ay + 1 <= by,
                width > 0,
        ;
    } else if by < ay {
        assert(by * width + width <= ay * width) by (nonlinear_arith)
            requires
                by + 1 <= ay,
                width > 0,
        ;
    }
}

} // verus!
