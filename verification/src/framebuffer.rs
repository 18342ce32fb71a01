//! The pixel buffer: a grid of packed colors with bounds-checked point
//! access, a background color for clearing and a current color for drawing.

use vstd::prelude::*;
use crate::bmp::{encode, file_bytes, fits};
use crate::canvas::Canvas;

verus! {

/// A `width` by `height` grid of packed colors, stored row by row.
pub struct Framebuffer {
    pub width: usize,
    pub height: usize,
    buffer: Vec<u32>,
    background_color: u32,
    current_color: u32,
}

impl View for Framebuffer {
    type V = Canvas;

    /// The canvas that the buffer holds.
    closed spec fn view(&self) -> Canvas {
        Canvas {
            width: self.width as nat,
            height: self.height as nat,
            pixels: self.buffer@,
            background_color: self.background_color,
            current_color: self.current_color,
        }
    }
}

impl Framebuffer {
    /// The buffer holds exactly `width * height` pixels.
    pub open spec fn wf(&self) -> bool {
        self@.wf()
    }

    /// Creates a buffer of the given size, every pixel black, with a black
    /// background color and a white current color.
    pub fn new(width: usize, height: usize) -> (fb: Framebuffer)
        requires
            width * height <= usize::MAX,
        ensures
            fb.wf(),
            fb@ == Canvas::blank(width as nat, height as nat),
    {
        let buffer_size: usize = width * height;
        let background_color: u32 = 0x000000;
        let buffer: Vec<u32> = vec![background_color; buffer_size];
        let fb = Framebuffer { width, height, buffer, background_color, current_color: 0xFFFFFF };
        assert(fb@.pixels =~= Canvas::blank(width as nat, height as nat).pixels);
        fb
    }

    /// Sets every pixel to the background color.
    pub fn clear(&mut self)
        requires
            old(self).wf(),
        ensures
            final(self).wf(),
            final(self)@ == old(self)@.cleared(),
    {
        let n: usize = self.buffer.len();
        let color: u32 = self.background_color;
        let mut i: usize = 0;
        while i < n
            invariant
                i <= n,
                n == self.buffer.len(),
                color == self.background_color,
                self.width == old(self).width,
                self.height == old(self).height,
                self.background_color == old(self).background_color,
                self.current_color == old(self).current_color,
                self.buffer.len() == old(self).buffer.len(),
                forall|k: int| 0 <= k < i ==> self.buffer[k] == color,
            decreases n - i,
        {
            self.buffer.set(i, color);
            i += 1;
        }
        assert(self@.pixels =~= old(self)@.cleared().pixels);
    }

    /// Writes the current color at `(x, y)` if that pixel exists; does
    /// nothing otherwise.
    pub fn point(&mut self, x: isize, y: isize)
        requires
            old(self).wf(),
        ensures
            final(self).wf(),
            final(self)@ == old(self)@.plot(x as int, y as int),
    {
        if x >= 0 && y >= 0 && (x as usize) < self.width && (y as usize) < self.height {
            proof {
                self@.lemma_index_of(x as int, y as int);
                assert(self.buffer@.len() == self.buffer.len());
            }
            let index: usize = (y as usize) * self.width + (x as usize);
            self.buffer.set(index, self.current_color);
        }
    }

    /// Reads the pixel at `(x, y)`, or `None` if there is no such pixel.
    pub fn get_point(&self, x: isize, y: isize) -> (color: Option<u32>)
        requires
            self.wf(),
        ensures
            color == self@.get(x as int, y as int),
    {
        if x >= 0 && y >= 0 && (x as usize) < self.width && (y as usize) < self.height {
            proof {
                self@.lemma_index_of(x as int, y as int);
                assert(self.buffer@.len() == self.buffer.len());
            }
            let index: usize = (y as usize) * self.width + (x as usize);
            Some(self.buffer[index])
        } else {
            None
        }
    }

    /// Chooses the color that `clear` fills with. No pixel changes.
    pub fn set_background_color(&mut self, color: u32)
        ensures
            final(self)@ == old(self)@.with_background_color(color),
    {
        self.background_color = color;
    }

    /// Chooses the color that `point` writes. No pixel changes.
    pub fn set_current_color(&mut self, color: u32)
        ensures
            final(self)@ == old(self)@.with_current_color(color),
    {
        self.current_color = color;
    }

    /// Renders the buffer as the bytes of a bitmap file, ready to be written
    /// out. Returns `None` if the buffer is too large for the format.
    pub fn render_buffer(&self) -> (file: Option<Vec<u8>>)
        requires
            self.wf(),
        ensures
            match file {
                Some(bytes) => fits(self@.width as int, self@.height as int) && bytes@
                    == file_bytes(self@),
                None => !fits(self@.width as int, self@.height as int),
            },
    {
        encode(self.width, self.height, &self.buffer, Ghost(self@))
    }

    /// The stored pixels, row by row.
    pub fn buffer(&self) -> (pixels: &Vec<u32>)
        ensures
            pixels@ == self@.pixels,
    {
        &self.buffer
    }
}

} // verus!
