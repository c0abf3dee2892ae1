//! The framebuffer as rows of pixels.

use vstd::prelude::*;

verus! {

/// One pixel: blue, green, red, and a byte that is not used.
#[derive(Debug, Clone, Copy, PartialEq, Eq, Structural)]
pub struct Color {
    pub b: u8,
    pub g: u8,
    pub r: u8,
    pub padding: u8,
}

impl Color {
    pub fn new(r: u8, g: u8, b: u8) -> (c: Color)
        ensures
            c == (Color { b, g, r, padding: 0 }),
    {
        Color { r, g, b, padding: 0 }
    }

    pub fn white() -> (c: Color)
        ensures
            c == (Color { b: 255, g: 255, r: 255, padding: 0 }),
    {
        Color::new(255, 255, 255)
    }

    pub fn black() -> (c: Color)
        ensures
            c == (Color { b: 0, g: 0, r: 0, padding: 0 }),
    {
        Color::new(0, 0, 0)
    }
}

/// The pixels of a framebuffer of `width` by `height`, row by row.
pub struct Screen {
    pub width: usize,
    pub height: usize,
    pub colors: Vec<Color>,
}

impl Screen {
    pub open spec fn wf(&self) -> bool {
        self.colors.len() == self.width * self.height
    }

    /// Where in the rows the pixel at (`x`, `y`) stands.
    pub open spec fn place(&self, x: int, y: int) -> int {
        x + y * self.width
    }

    /// The colour of the pixel at (`x`, `y`).
    pub open spec fn pixel(&self, x: int, y: int) -> Color {
        self.colors@[self.place(x, y)]
    }

    /// A screen of `width` by `height` pixels, all of them `color`.
    pub fn new(width: usize, height: usize, color: Color) -> (r: Screen)
        requires
            width * height <= usize::MAX,
        ensures
            r.wf(),
            r.width == width,
            r.height == height,
            forall|p: int| 0 <= p < r.colors@.len() ==> #[trigger] r.colors@[p] == color,
    {
        let count: usize = width * height;
        let mut colors: Vec<Color> = Vec::new();
        let mut i: usize = 0;
        while i < count
            invariant
                i <= count,
                colors@.len() == i,
                forall|p: int| 0 <= p < i ==> #[trigger] colors@[p] == color,
            decreases count - i,
        {
            colors.push(color);
            i += 1;
        }
        Screen { width, height, colors }
    }

    /// All pixels, to be read and changed.
    pub fn get_colors(&mut self) -> (r: &mut Vec<Color>)
        ensures
            *r == old(self).colors,
            final(self).colors == *final(r),
            final(self).width == old(self).width,
            final(self).height == old(self).height,
    {
        &mut self.colors
    }

    /// The pixel at (`x`, `y`), to be read and changed.
    pub fn get_color(&mut self, x: usize, y: usize) -> (r: &mut Color)
        requires
            old(self).wf(),
            x < old(self).width,
            y < old(self).height,
        ensures
            *r == old(self).colors@[old(self).place(x as int, y as int)],
            final(self).colors@ == old(self).colors@.update(
                old(self).place(x as int, y as int),
                *final(r),
            ),
            final(self).width == old(self).width,
            final(self).height == old(self).height,
    {
        proof {
            lemma_place_in_range(x as int, y as int, self.width as int, self.height as int);
            assert(0 <= y * self.width) by (nonlinear_arith)
                requires
                    0 <= y,
                    0 <= self.width,
            ;
        }
        &mut self.colors[x + y * self.width]
    }

    /// Makes every pixel `color`.
    pub fn fill(&mut self, color: Color)
        ensures
            final(self).width == old(self).width,
            final(self).height == old(self).height,
            final(self).colors@.len() == old(self).colors@.len(),
            forall|p: int| 0 <= p < final(self).colors@.len() ==> #[trigger] final(self).colors@[p]
                == color,
    {
        let count: usize = self.colors.len();
        let mut i: usize = 0;
        while i < count
            invariant
                i <= count,
                self.width == old(self).width,
                self.height == old(self).height,
                self.colors@.len() == count,
                count == old(self).colors@.len(),
                forall|p: int| 0 <= p < i ==> #[trigger] self.colors@[p] == color,
            decreases count - i,
        {
            self.colors[i] = color;
            i += 1;
        }
    }
}

/// A pixel of the screen has its place among the screen's pixels.
pub proof fn lemma_place_in_range(x: int, y: int, width: int, height: int)
    requires
        0 <= x < width,
        0 <= y < height,
    ensures
        0 <= x + y * width < width * height,
{
    assert(y * width + width <= height * width) by (nonlinear_arith)
        requires
            0 <= y < height,
            width > 0,
    ;
    assert(0 <= y * width) by (nonlinear_arith)
        requires
            0 <= y,
            0 < width,
    ;
    assert(height * width == width * height) by (nonlinear_arith);
}

} // verus!
