//! The mathematical model of a pixel buffer: a grid of packed colors stored
//! row by row, together with the two colors that drawing and clearing use.

use vstd::prelude::*;
use vstd::arithmetic::div_mod::{
    lemma_fundamental_div_mod_converse_div,
    lemma_fundamental_div_mod_converse_mod,
};

verus! {

/// What a framebuffer holds, as plain mathematics.
///
/// Pixel `(x, y)` is entry `y * width + x` of `pixels`.
pub struct Canvas {
    pub width: nat,
    pub height: nat,
    pub pixels: Seq<u32>,
    pub background_color: u32,
    pub current_color: u32,
}

impl Canvas {
    /// The grid has exactly one entry per coordinate.
    pub open spec fn wf(self) -> bool {
        self.pixels.len() == self.width * self.height
    }

    /// Whether `(x, y)` names a pixel of the grid.
    pub open spec fn in_bounds(self, x: int, y: int) -> bool {
        0 <= x < self.width && 0 <= y < self.height
    }

    /// The place of pixel `(x, y)` in `pixels`.
    pub open spec fn index_of(self, x: int, y: int) -> int {
        y * self.width + x
    }

    /// The color of pixel `(x, y)`; meaningful inside the grid only.
    pub open spec fn pixel(self, x: int, y: int) -> u32
        recommends
            self.in_bounds(x, y),
    {
        self.pixels[self.index_of(x, y)]
    }

    /// A grid of the given size with every pixel black, black as background
    /// and white as the drawing color.
    pub open spec fn blank(width: nat, height: nat) -> Canvas {
        Canvas {
            width,
            height,
            pixels: Seq::new(width * height, |k: int| 0u32),
            background_color: 0x000000,
            current_color: 0xFFFFFF,
        }
    }

    /// The same grid with another background color. No pixel changes.
    pub open spec fn with_background_color(self, color: u32) -> Canvas {
        Canvas { background_color: color, ..self }
    }

    /// The same grid with another drawing color. No pixel changes.
    pub open spec fn with_current_color(self, color: u32) -> Canvas {
        Canvas { current_color: color, ..self }
    }

    /// Every pixel replaced by the background color.
    pub open spec fn cleared(self) -> Canvas {
        Canvas {
            pixels: Seq::new(self.pixels.len(), |k: int| self.background_color),
            ..self
        }
    }

    /// Pixel `(x, y)` set to the drawing color when it lies inside the grid;
    /// the canvas itself otherwise.
    pub open spec fn plot(self, x: int, y: int) -> Canvas {
        if self.in_bounds(x, y) {
            Canvas { pixels: self.pixels.update(self.index_of(x, y), self.current_color), ..self }
        } else {
            self
        }
    }

    /// The color of pixel `(x, y)`, or `None` outside the grid.
    pub open spec fn get(self, x: int, y: int) -> Option<u32> {
        if self.in_bounds(x, y) {
            Some(self.pixel(x, y))
        } else {
            None
        }
    }

    /// Every pixel of the grid whose coordinates lie in `region` set to
    /// `color`; all other pixels, and both colors of the canvas, kept.
    pub open spec fn paint(self, region: Set<(int, int)>, color: u32) -> Canvas {
        Canvas {
            pixels: Seq::new(
                self.pixels.len(),
                |k: int|
                    if region.contains((k % (self.width as int), k / (self.width as int))) {
                        color
                    } else {
                        self.pixels[k]
                    },
            ),
            ..self
        }
    }

    /// Inside the grid, the index of a pixel is in range and gives back the
    /// pixel's coordinates by division.
    pub proof fn lemma_index_of(self, x: int, y: int)
        requires
            self.wf(),
            self.in_bounds(x, y),
        ensures
            0 <= y * self.width,
            0 <= self.index_of(x, y) < self.pixels.len(),
            self.index_of(x, y) % (self.width as int) == x,
            self.index_of(x, y) / (self.width as int) == y,
    {
        let w = self.width as int;
        let h = self.height as int;
        assert(0 <= y * w && y * w + x < w * h) by (nonlinear_arith)
            requires
                0 <= x < w,
                0 <= y < h,
        ;
        lemma_fundamental_div_mod_converse_div(y * w + x, w, y, x);
        lemma_fundamental_div_mod_converse_mod(y * w + x, w, y, x);
    }

    /// Every index of the grid is the index of exactly one pixel inside it.
    pub proof fn lemma_coordinates_of(self, k: int)
        requires
            self.wf(),
            0 <= k < self.pixels.len(),
        ensures
            self.in_bounds(k % (self.width as int), k / (self.width as int)),
            self.index_of(k % (self.width as int), k / (self.width as int)) == k,
    {
        let w = self.width as int;
        let h = self.height as int;
        assert(w > 0) by (nonlinear_arith)
            requires
                0 <= k < w * h,
                0 <= w,
        ;
        assert(0 <= k % w < w && 0 <= k / w < h && (k / w) * w + k % w == k) by (nonlinear_arith)
            requires
                0 <= k < w * h,
                0 < w,
        ;
    }

    /// What painting does to each pixel of the grid.
    pub proof fn lemma_paint_pixel(self, region: Set<(int, int)>, color: u32, x: int, y: int)
        requires
            self.wf(),
            self.in_bounds(x, y),
        ensures
            self.paint(region, color).pixel(x, y) == if region.contains((x, y)) {
                color
            } else {
                self.pixel(x, y)
            },
    {
        self.lemma_index_of(x, y);
    }

    /// Plotting one point is painting the region that holds that point alone.
    pub proof fn lemma_plot_is_paint(self, x: int, y: int)
        requires
            self.wf(),
        ensures
            self.plot(x, y) == self.paint(set![(x, y)], self.current_color),
    {
        let painted = self.paint(set![(x, y)], self.current_color);
        let plotted = self.plot(x, y);
        if self.in_bounds(x, y) {
            self.lemma_index_of(x, y);
        }
        assert forall|k: int| 0 <= k < self.pixels.len() implies #[trigger] plotted.pixels[k]
            == painted.pixels[k] by {
            self.lemma_coordinates_of(k);
            let kx = k % (self.width as int);
            let ky = k / (self.width as int);
            assert(set![(x, y)].contains((kx, ky)) <==> (kx == x && ky == y));
            if self.in_bounds(x, y) {
                self.lemma_index_of(x, y);
                assert(k == self.index_of(x, y) <==> (kx == x && ky == y));
            }
        }
        assert(plotted.pixels =~= painted.pixels);
    }

    /// Painting an empty region changes nothing.
    pub proof fn lemma_paint_nothing(self, color: u32)
        ensures
            self.paint(Set::empty(), color) == self,
    {
        assert(self.paint(Set::empty(), color).pixels =~= self.pixels);
    }

    /// Painting two regions in turn with one color is painting their union.
    pub proof fn lemma_paint_twice(self, first: Set<(int, int)>, second: Set<(int, int)>, color: u32)
        ensures
            self.paint(first, color).paint(second, color) == self.paint(first.union(second), color),
    {
        assert(self.paint(first, color).paint(second, color).pixels =~= self.paint(
            first.union(second),
            color,
        ).pixels);
    }

    /// A blank canvas is well-formed and black all over.
    pub proof fn lemma_blank_is_black(width: nat, height: nat)
        ensures
            Canvas::blank(width, height).wf(),
            Canvas::blank(width, height).pixels.len() == width * height,
            forall|k: int|
                0 <= k < width * height ==> #[trigger] Canvas::blank(width, height).pixels[k] == 0,
            forall|x: int, y: int|
                Canvas::blank(width, height).in_bounds(x, y) ==> #[trigger] Canvas::blank(
                    width,
                    height,
                ).get(x, y) == Some(0u32),
    {
        let blank = Canvas::blank(width, height);
        assert forall|x: int, y: int| blank.in_bounds(x, y) implies #[trigger] blank.get(x, y)
            == Some(0u32) by {
            blank.lemma_index_of(x, y);
        }
    }

    /// After choosing a color and plotting a point inside the grid, reading
    /// that point gives the chosen color.
    pub proof fn lemma_plot_then_get(self, color: u32, x: int, y: int)
        requires
            self.wf(),
            self.in_bounds(x, y),
        ensures
            self.with_current_color(color).plot(x, y).get(x, y) == Some(color),
    {
        self.lemma_index_of(x, y);
    }

    /// Plotting changes no pixel but the plotted one.
    pub proof fn lemma_plot_keeps_others(self, x: int, y: int, other_x: int, other_y: int)
        requires
            self.wf(),
            self.in_bounds(other_x, other_y),
            (other_x, other_y) != (x, y),
        ensures
            self.plot(x, y).get(other_x, other_y) == self.get(other_x, other_y),
    {
        self.lemma_index_of(other_x, other_y);
        if self.in_bounds(x, y) {
            self.lemma_index_of(x, y);
        }
    }

    /// Outside the grid, plotting changes nothing and reading finds nothing.
    pub proof fn lemma_plot_outside(self, x: int, y: int)
        requires
            !self.in_bounds(x, y),
        ensures
            self.plot(x, y) == self,
            self.get(x, y) == None::<u32>,
    {
    }

    /// After choosing a background color and clearing, every pixel has that
    /// color.
    pub proof fn lemma_clear_fills(self, color: u32)
        requires
            self.wf(),
        ensures
            self.with_background_color(color).cleared().wf(),
            forall|k: int|
                0 <= k < self.pixels.len() ==> #[trigger] self.with_background_color(
                    color,
                ).cleared().pixels[k] == color,
            forall|x: int, y: int|
                self.in_bounds(x, y) ==> #[trigger] self.with_background_color(color).cleared().get(
                    x,
                    y,
                ) == Some(color),
    {
        let cleared = self.with_background_color(color).cleared();
        assert forall|x: int, y: int| self.in_bounds(x, y) implies #[trigger] cleared.get(x, y)
            == Some(color) by {
            self.lemma_index_of(x, y);
        }
    }
}

} // verus!
