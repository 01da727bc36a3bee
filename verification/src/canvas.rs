//! A grayscale pixel buffer for 2D drawing.
use vstd::prelude::*;
use crate::raster::{lemma_nn_bound, nn_src};

verus! {

/// A grayscale canvas: row-major pixels, and which rows have been drawn on.
#[derive(Debug, Clone)]
pub struct Canvas {
    pub width: u32,
    pub height: u32,
    /// Row-major grayscale pixels, `width * height` of them.
    pub pixels: Vec<u8>,
    pub background: u8,
    pub foreground: u8,
    /// Which rows hold non-background content.
    pub dirty_rows: Vec<bool>,
}

/// The row of pixel `i` of a `w`-wide image.
pub open spec fn row_of(i: int, w: int) -> int {
    i / w
}

/// The column of pixel `i` of a `w`-wide image.
pub open spec fn col_of(i: int, w: int) -> int {
    i % w
}

/// Pixels with the rectangle of rows `y0..y1` and columns `x0..x1` set to `v`.
pub open spec fn filled(p: Seq<u8>, w: int, x0: int, x1: int, y0: int, y1: int, v: u8) -> Seq<u8> {
    Seq::new(p.len(), |i: int| if y0 <= row_of(i, w) < y1 && x0 <= col_of(i, w) < x1 { v } else { p[i] })
}

/// Rows `y0..y1` marked as drawn on.
pub open spec fn marked(d: Seq<bool>, y0: int, y1: int) -> Seq<bool> {
    Seq::new(d.len(), |r: int| d[r] || (y0 <= r < y1))
}

/// The smaller of two integers.
pub open spec fn min_i(a: int, b: int) -> int {
    if a <= b { a } else { b }
}

/// The larger of two integers.
pub open spec fn max_i(a: int, b: int) -> int {
    if a >= b { a } else { b }
}

/// Coordinates of a pixel index.
pub proof fn lemma_coords(i: int, w: int)
    requires
        w > 0,
        i >= 0,
    ensures
        i == row_of(i, w) * w + col_of(i, w),
        0 <= col_of(i, w) < w,
        row_of(i, w) >= 0,
{
    vstd::arithmetic::div_mod::lemma_fundamental_div_mod(i, w);
    assert(0 <= i % w < w) by (nonlinear_arith)
        requires
            w > 0,
    ;
    assert(i / w >= 0) by (nonlinear_arith)
        requires
            w > 0,
            i >= 0,
    ;
    assert(w * (i / w) == (i / w) * w) by (nonlinear_arith);
}

/// A pixel index within a `w` by `h` image lies in a row below `h`.
pub proof fn lemma_row_bound(i: int, w: int, h: int)
    requires
        0 <= i < w * h,
        w > 0,
    ensures
        row_of(i, w) < h,
{
    lemma_coords(i, w);
    assert(row_of(i, w) < h) by (nonlinear_arith)
        requires
            i == row_of(i, w) * w + col_of(i, w),
            0 <= col_of(i, w),
            i < w * h,
            w > 0,
    ;
}

/// The index of a pixel from its coordinates.
pub proof fn lemma_index_of(r: int, c: int, w: int, h: int)
    requires
        0 <= r < h,
        0 <= c < w,
    ensures
        row_of(r * w + c, w) == r,
        col_of(r * w + c, w) == c,
        0 <= r * w + c < w * h,
{
    vstd::arithmetic::div_mod::lemma_fundamental_div_mod_converse(r * w + c, w, r, c);
    assert(0 <= r * w + c < w * h) by (nonlinear_arith)
        requires
            0 <= r < h,
            0 <= c < w,
    ;
}

impl Canvas {
    /// The buffers match the size.
    pub open spec fn wf(&self) -> bool {
        &&& self.pixels@.len() == self.width * self.height
        &&& self.dirty_rows@.len() == self.height
        &&& self.width * self.height <= u32::MAX
    }

    /// A canvas filled with the background, no row drawn on.
    pub fn new(width: u32, height: u32, background: u8, foreground: u8) -> (c: Canvas)
        requires
            width * height <= u32::MAX,
        ensures
            c.wf(),
            c.width == width,
            c.height == height,
            c.background == background,
            c.foreground == foreground,
            forall|i: int| 0 <= i < c.pixels@.len() ==> c.pixels@[i] == background,
            forall|r: int| 0 <= r < c.dirty_rows@.len() ==> !c.dirty_rows@[r],
    {
        let n: u32 = width * height;
        let mut pixels: Vec<u8> = Vec::new();
        let mut i: u32 = 0;
        while i < n
            invariant
                i <= n,
                pixels@.len() == i,
                forall|j: int| 0 <= j < i ==> pixels@[j] == background,
            decreases n - i,
        {
            pixels.push(background);
            i = i + 1;
        }
        let mut dirty_rows: Vec<bool> = Vec::new();
        let mut r: u32 = 0;
        while r < height
            invariant
                r <= height,
                dirty_rows@.len() == r,
                forall|j: int| 0 <= j < r ==> !dirty_rows@[j],
            decreases height - r,
        {
            dirty_rows.push(false);
            r = r + 1;
        }
        Canvas { width, height, pixels, background, foreground, dirty_rows }
    }

    fn mark_dirty(&mut self, y_start: u32, y_end: u32)
        requires
            old(self).wf(),
            y_start <= min_i(y_end as int, old(self).height as int),
        ensures
            final(self).wf(),
            final(self).width == old(self).width,
            final(self).height == old(self).height,
            final(self).background == old(self).background,
            final(self).foreground == old(self).foreground,
            final(self).pixels@ == old(self).pixels@,
            final(self).dirty_rows@ == marked(old(self).dirty_rows@, y_start as int, min_i(y_end as int, old(self).height as int)),
    {
        let end: u32 = if y_end <= self.height { y_end } else { self.height };
        let ghost d0 = self.dirty_rows@;
        let mut r = y_start;
        while r < end
            invariant
                y_start <= r <= end <= self.height,
                self.wf(),
                self.width == old(self).width,
                self.height == old(self).height,
                self.background == old(self).background,
                self.foreground == old(self).foreground,
                self.pixels@ == old(self).pixels@,
                d0 == old(self).dirty_rows@,
                self.dirty_rows@ == marked(d0, y_start as int, r as int),
            decreases end - r,
        {
            self.dirty_rows.set(r as usize, true);
            r = r + 1;
            assert(self.dirty_rows@ == marked(d0, y_start as int, r as int));
        }
    }

    /// Set a single pixel and mark its row; nothing when out of bounds.
    pub fn set_pixel(&mut self, x: u32, y: u32, value: u8)
        requires
            old(self).wf(),
        ensures
            final(self).wf(),
            final(self).width == old(self).width,
            final(self).height == old(self).height,
            final(self).background == old(self).background,
            final(self).foreground == old(self).foreground,
            final(self).pixels@ == filled(old(self).pixels@, old(self).width as int, x as int, x + 1, y as int, y + 1, value),
            final(self).dirty_rows@ == marked(old(self).dirty_rows@, y as int, if x < old(self).width && y < old(self).height { y + 1 } else { y as int }),
    {
        let ghost p0 = self.pixels@;
        let ghost w = self.width as int;
        if x < self.width && y < self.height {
            proof {
                lemma_index_of(y as int, x as int, w, self.height as int);
            }
            let idx = y * self.width + x;
            self.pixels.set(idx as usize, value);
            self.dirty_rows.set(y as usize, true);
            proof {
                assert forall|i: int| 0 <= i < p0.len() implies self.pixels@[i] == filled(p0, w, x as int, x + 1, y as int, y + 1, value)[i] by {
                    lemma_coords(i, w);
                    if i != idx {
                        if row_of(i, w) == y && col_of(i, w) == x {
                            assert(i == idx);
                        }
                    }
                }
                assert(self.pixels@ == filled(p0, w, x as int, x + 1, y as int, y + 1, value));
                assert(self.dirty_rows@ == marked(old(self).dirty_rows@, y as int, y + 1));
            }
        } else {
            proof {
                assert forall|i: int| 0 <= i < p0.len() implies p0[i] == filled(p0, w, x as int, x + 1, y as int, y + 1, value)[i] by {
                    if w > 0 {
                        lemma_coords(i, w);
                        assert((row_of(i, w) + 1) * w <= p0.len()) by (nonlinear_arith)
                            requires
                                i == row_of(i, w) * w + col_of(i, w),
                                0 <= col_of(i, w) < w,
                                i < p0.len(),
                                p0.len() == w * (self.height as int),
                                row_of(i, w) >= 0,
                        ;
                        assert(row_of(i, w) < self.height) by (nonlinear_arith)
                            requires
                                (row_of(i, w) + 1) * w <= w * (self.height as int),
                                w > 0,
                        ;
                    }
                }
                assert(p0 == filled(p0, w, x as int, x + 1, y as int, y + 1, value));
                assert(self.dirty_rows@ == marked(old(self).dirty_rows@, y as int, y as int));
            }
        }
    }

    fn fill_region(&mut self, x0: u32, x1: u32, y0: u32, y1: u32, value: u8)
        requires
            old(self).wf(),
            x0 <= x1 <= old(self).width,
            y0 <= y1 <= old(self).height,
        ensures
            final(self).wf(),
            final(self).width == old(self).width,
            final(self).height == old(self).height,
            final(self).background == old(self).background,
            final(self).foreground == old(self).foreground,
            final(self).dirty_rows@ == old(self).dirty_rows@,
            final(self).pixels@ == filled(old(self).pixels@, old(self).width as int, x0 as int, x1 as int, y0 as int, y1 as int, value),
    {
        let ghost p0 = self.pixels@;
        let ghost w = self.width as int;
        let mut py = y0;
        while py < y1
            invariant
                self.wf(),
                self.width == old(self).width,
                self.height == old(self).height,
                self.background == old(self).background,
                self.foreground == old(self).foreground,
                self.dirty_rows@ == old(self).dirty_rows@,
                p0 == old(self).pixels@,
                w == self.width,
                x0 <= x1 <= self.width,
                y0 <= py <= y1 <= self.height,
                self.pixels@ == filled(p0, w, x0 as int, x1 as int, y0 as int, py as int, value),
            decreases y1 - py,
        {
            let mut px = x0;
            while px < x1
                invariant
                    self.wf(),
                    self.width == old(self).width,
                    self.height == old(self).height,
                    self.background == old(self).background,
                    self.foreground == old(self).foreground,
                    self.dirty_rows@ == old(self).dirty_rows@,
                    p0 == old(self).pixels@,
                    w == self.width,
                    x0 <= px <= x1 <= self.width,
                    y0 <= py < y1 <= self.height,
                    self.pixels@ == Seq::new(p0.len(), |i: int| if (y0 <= row_of(i, w) < py && x0 <= col_of(i, w) < x1) || (row_of(i, w) == py && x0 <= col_of(i, w) < px) {
                        value
                    } else {
                        p0[i]
                    }),
                decreases x1 - px,
            {
                proof {
                    lemma_index_of(py as int, px as int, w, self.height as int);
                }
                let idx = py * self.width + px;
                let ghost before = self.pixels@;
                self.pixels.set(idx as usize, value);
                proof {
                    assert forall|i: int| 0 <= i < p0.len() implies self.pixels@[i] == (if (y0 <= row_of(i, w) < py && x0 <= col_of(i, w) < x1) || (row_of(i, w) == py && x0 <= col_of(i, w) < px + 1) {
                        value
                    } else {
                        p0[i]
                    }) by {
                        lemma_coords(i, w);
                        if i != idx && row_of(i, w) == py && col_of(i, w) == px {
                            assert(i == idx);
                        }
                    }
                }
                px = px + 1;
            }
            proof {
                assert(self.pixels@ == filled(p0, w, x0 as int, x1 as int, y0 as int, py + 1, value));
            }
            py = py + 1;
        }
    }

    /// Draw a filled rectangle, clipped to the canvas, and mark its rows;
    /// a rectangle outside the canvas draws and marks nothing.
    pub fn fill_rect(&mut self, x: u32, y: u32, w: u32, h: u32, value: u8)
        requires
            old(self).wf(),
            x + w <= u32::MAX,
            y + h <= u32::MAX,
        ensures
            final(self).wf(),
            final(self).width == old(self).width,
            final(self).height == old(self).height,
            final(self).background == old(self).background,
            final(self).foreground == old(self).foreground,
            final(self).pixels@ == filled(old(self).pixels@, old(self).width as int, x as int, min_i(x + w, old(self).width as int), y as int, min_i(y + h, old(self).height as int), value),
            final(self).dirty_rows@ == if min_i(x + w, old(self).width as int) > x {
                marked(old(self).dirty_rows@, y as int, min_i(y + h, old(self).height as int))
            } else {
                old(self).dirty_rows@
            },
    {
        let x_end: u32 = if x + w <= self.width { x + w } else { self.width };
        let y_end: u32 = if y + h <= self.height { y + h } else { self.height };
        if x_end <= x || y_end <= y {
            proof {
                let p0 = self.pixels@;
                assert(p0 == filled(p0, self.width as int, x as int, x_end as int, y as int, y_end as int, value));
                let d0 = self.dirty_rows@;
                assert(y_end <= y ==> d0 == marked(d0, y as int, y_end as int));
            }
            return;
        }
        self.mark_dirty(y, y_end);
        self.fill_region(x, x_end, y, y_end, value);
    }

    /// Draw a solid horizontal line (see [`Canvas::fill_rect`]).
    pub fn draw_hline(&mut self, x: u32, y: u32, width: u32, thickness: u32, value: u8)
        requires
            old(self).wf(),
            x + width <= u32::MAX,
            y + thickness <= u32::MAX,
        ensures
            final(self).wf(),
            final(self).width == old(self).width,
            final(self).height == old(self).height,
            final(self).background == old(self).background,
            final(self).foreground == old(self).foreground,
            final(self).pixels@ == filled(old(self).pixels@, old(self).width as int, x as int, min_i(x + width, old(self).width as int), y as int, min_i(y + thickness, old(self).height as int), value),
            final(self).dirty_rows@ == if min_i(x + width, old(self).width as int) > x {
                marked(old(self).dirty_rows@, y as int, min_i(y + thickness, old(self).height as int))
            } else {
                old(self).dirty_rows@
            },
    {
        self.fill_rect(x, y, width, thickness, value);
    }

    /// Draw a dotted horizontal line: 6 pixels on, 5 off, from `x`; all
    /// its rows are marked.
    pub fn draw_dotted_hline(&mut self, x: u32, y: u32, width: u32, thickness: u32, value: u8)
        requires
            old(self).wf(),
            x + width <= u32::MAX,
            y + thickness <= u32::MAX,
        ensures
            final(self).wf(),
            final(self).width == old(self).width,
            final(self).height == old(self).height,
            final(self).background == old(self).background,
            final(self).foreground == old(self).foreground,
            final(self).pixels@ == dotted(old(self).pixels@, old(self).width as int, x as int, min_i(x + width, old(self).width as int), y as int, min_i(y + thickness, old(self).height as int), value),
            final(self).dirty_rows@ == marked(old(self).dirty_rows@, y as int, min_i(y + thickness, old(self).height as int)),
    {
        let x_end: u32 = if x + width <= self.width { x + width } else { self.width };
        let y_end: u32 = if y + thickness <= self.height { y + thickness } else { self.height };
        if y_end <= y {
            proof {
                let p0 = self.pixels@;
                assert(p0 == dotted(p0, self.width as int, x as int, x_end as int, y as int, y_end as int, value));
                let d0 = self.dirty_rows@;
                assert(d0 == marked(d0, y as int, y_end as int));
            }
            return;
        }
        self.mark_dirty(y, y_end);
        let ghost p0 = self.pixels@;
        let ghost w = self.width as int;
        let mut py = y;
        while py < y_end
            invariant
                self.wf(),
                self.width == old(self).width,
                self.height == old(self).height,
                self.background == old(self).background,
                self.foreground == old(self).foreground,
                self.dirty_rows@ == marked(old(self).dirty_rows@, y as int, y_end as int),
                p0 == old(self).pixels@,
                w == self.width,
                x_end <= self.width,
                y <= py <= y_end <= self.height,
                self.pixels@ == dotted(p0, w, x as int, x_end as int, y as int, py as int, value),
            decreases y_end - py,
        {
            let mut px = x;
            while px < x_end
                invariant
                    self.wf(),
                    self.width == old(self).width,
                    self.height == old(self).height,
                    self.background == old(self).background,
                    self.foreground == old(self).foreground,
                    self.dirty_rows@ == marked(old(self).dirty_rows@, y as int, y_end as int),
                    p0 == old(self).pixels@,
                    w == self.width,
                    x <= px,
                    px <= x_end || x_end < x,
                    x_end < x ==> px == x,
                    x_end <= self.width,
                    y <= py < y_end <= self.height,
                    self.pixels@ == Seq::new(p0.len(), |i: int| if (y <= row_of(i, w) < py && x <= col_of(i, w) < x_end && (col_of(i, w) - x) % 11 < 6) || (row_of(i, w) == py && x <= col_of(i, w) < px && (col_of(i, w) - x) % 11 < 6) {
                        value
                    } else {
                        p0[i]
                    }),
                decreases x_end - px,
            {
                if (px - x) % 11 < 6 {
                    proof {
                        lemma_index_of(py as int, px as int, w, self.height as int);
                    }
                    let idx = py * self.width + px;
                    self.pixels.set(idx as usize, value);
                    proof {
                        assert forall|i: int| 0 <= i < p0.len() implies self.pixels@[i] == (if (y <= row_of(i, w) < py && x <= col_of(i, w) < x_end && (col_of(i, w) - x) % 11 < 6) || (row_of(i, w) == py && x <= col_of(i, w) < px + 1 && (col_of(i, w) - x) % 11 < 6) {
                            value
                        } else {
                            p0[i]
                        }) by {
                            lemma_coords(i, w);
                            if i != idx && row_of(i, w) == py && col_of(i, w) == px {
                                assert(i == idx);
                            }
                        }
                    }
                } else {
                    proof {
                        assert forall|i: int| 0 <= i < p0.len() implies self.pixels@[i] == (if (y <= row_of(i, w) < py && x <= col_of(i, w) < x_end && (col_of(i, w) - x) % 11 < 6) || (row_of(i, w) == py && x <= col_of(i, w) < px + 1 && (col_of(i, w) - x) % 11 < 6) {
                            value
                        } else {
                            p0[i]
                        }) by {
                            lemma_coords(i, w);
                        }
                    }
                }
                px = px + 1;
            }
            proof {
                assert(self.pixels@ == dotted(p0, w, x as int, x_end as int, y as int, py + 1, value));
            }
            py = py + 1;
        }
    }

    /// Blit an image, clipped to the canvas, copying its rows; the rows
    /// are marked when anything is copied. Nothing is drawn where the image
    /// lies outside the canvas.
    pub fn blit_image(&mut self, x: u32, y: u32, img_w: u32, img_h: u32, pixels: &[u8])
        requires
            old(self).wf(),
            x + img_w <= u32::MAX,
            y + img_h <= u32::MAX,
            pixels@.len() >= img_w * img_h,
        ensures
            final(self).wf(),
            final(self).width == old(self).width,
            final(self).height == old(self).height,
            final(self).background == old(self).background,
            final(self).foreground == old(self).foreground,
            final(self).pixels@ == copied(old(self).pixels@, old(self).width as int, x as int, min_i(x + img_w, old(self).width as int), y as int, min_i(y + img_h, old(self).height as int), pixels@, img_w as int),
            final(self).dirty_rows@ == if min_i(x + img_w, old(self).width as int) > x {
                marked(old(self).dirty_rows@, y as int, min_i(y + img_h, old(self).height as int))
            } else {
                old(self).dirty_rows@
            },
    {
        let x_end: u32 = if x + img_w <= self.width { x + img_w } else { self.width };
        let y_end: u32 = if y + img_h <= self.height { y + img_h } else { self.height };
        let ghost p0 = self.pixels@;
        let ghost w = self.width as int;
        if x_end <= x || y_end <= y {
            assert(p0 == copied(p0, w, x as int, x_end as int, y as int, y_end as int, pixels@, img_w as int));
            assert(y_end <= y ==> self.dirty_rows@ == marked(self.dirty_rows@, y as int, y_end as int));
            return;
        }
        self.mark_dirty(y, y_end);
        let mut py = y;
        while py < y_end
            invariant
                self.wf(),
                self.width == old(self).width,
                self.height == old(self).height,
                self.background == old(self).background,
                self.foreground == old(self).foreground,
                self.dirty_rows@ == marked(old(self).dirty_rows@, y as int, y_end as int),
                p0 == old(self).pixels@,
                w == self.width,
                x < x_end <= self.width,
                x_end <= x + img_w,
                y <= py <= y_end <= self.height,
                y_end <= y + img_h,
                pixels@.len() >= img_w * img_h,
                self.pixels@ == copied(p0, w, x as int, x_end as int, y as int, py as int, pixels@, img_w as int),
            decreases y_end - py,
        {
            let mut px = x;
            while px < x_end
                invariant
                    self.wf(),
                    self.width == old(self).width,
                    self.height == old(self).height,
                    self.background == old(self).background,
                    self.foreground == old(self).foreground,
                    self.dirty_rows@ == marked(old(self).dirty_rows@, y as int, y_end as int),
                    p0 == old(self).pixels@,
                    w == self.width,
                    x <= px <= x_end <= self.width,
                    x_end <= x + img_w,
                    y <= py < y_end <= self.height,
                    y_end <= y + img_h,
                    pixels@.len() >= img_w * img_h,
                    self.pixels@ == Seq::new(p0.len(), |i: int| if (y <= row_of(i, w) < py && x <= col_of(i, w) < x_end) || (row_of(i, w) == py && x <= col_of(i, w) < px) {
                        pixels@[(row_of(i, w) - y) * img_w + (col_of(i, w) - x)]
                    } else {
                        p0[i]
                    }),
                decreases x_end - px,
            {
                proof {
                    lemma_index_of(py as int, px as int, w, self.height as int);
                    lemma_index_of((py - y) as int, (px - x) as int, img_w as int, img_h as int);
                }
                let idx = py * self.width + px;
                let n = pixels.len();
                assert(((py - y) as int) * (img_w as int) + ((px - x) as int) < n);
                assert(((py - y) as int) * (img_w as int) <= ((py - y) as int) * (img_w as int) + ((px - x) as int));
                let sidx = (py - y) as usize * img_w as usize + (px - x) as usize;
                let v = pixels[sidx];
                self.pixels.set(idx as usize, v);
                proof {
                    assert forall|i: int| 0 <= i < p0.len() implies self.pixels@[i] == (if (y <= row_of(i, w) < py && x <= col_of(i, w) < x_end) || (row_of(i, w) == py && x <= col_of(i, w) < px + 1) {
                        pixels@[(row_of(i, w) - y) * img_w + (col_of(i, w) - x)]
                    } else {
                        p0[i]
                    }) by {
                        lemma_coords(i, w);
                        if i != idx && row_of(i, w) == py && col_of(i, w) == px {
                            assert(i == idx);
                        }
                    }
                }
                px = px + 1;
            }
            proof {
                assert(self.pixels@ == copied(p0, w, x as int, x_end as int, y as int, py + 1, pixels@, img_w as int));
            }
            py = py + 1;
        }
    }

    /// Blit a glyph's coverage bitmap at `(x, y)`, clipped to the canvas:
    /// each covered pixel becomes the darker of itself and `255 - coverage`.
    /// The rows the clipped glyph spans are marked.
    pub fn blit_glyph(&mut self, x: i32, y: i32, glyph_w: u32, glyph_h: u32, coverage: &[u8])
        requires
            old(self).wf(),
            old(self).width <= i32::MAX,
            old(self).height <= i32::MAX,
            x > i32::MIN,
            y > i32::MIN,
            old(self).width - x <= i32::MAX,
            old(self).height - y <= i32::MAX,
            glyph_w * glyph_h <= u32::MAX,
            coverage@.len() >= glyph_w * glyph_h,
        ensures
            final(self).wf(),
            final(self).width == old(self).width,
            final(self).height == old(self).height,
            final(self).background == old(self).background,
            final(self).foreground == old(self).foreground,
            final(self).pixels@ == glyph_blend(old(self).pixels@, old(self).width as int, x as int, y as int, glyph_w as int, glyph_h as int, coverage@),
            final(self).dirty_rows@ == ({
                let gy0 = max_i(0, -y);
                let gy1 = min_i(glyph_h as int, max_i(old(self).height - y, 0));
                if gy0 < gy1 { marked(old(self).dirty_rows@, y + gy0, y + gy1) } else { old(self).dirty_rows@ }
            }),
    {
        let ghost p0 = self.pixels@;
        let ghost w = self.width as int;
        let xl = x as i64;
        let yl = y as i64;
        let gx0: i64 = if -xl > 0 { -xl } else { 0 };
        let gy0: i64 = if -yl > 0 { -yl } else { 0 };
        let wx: i64 = if self.width as i64 - xl > 0 { self.width as i64 - xl } else { 0 };
        let hy: i64 = if self.height as i64 - yl > 0 { self.height as i64 - yl } else { 0 };
        let gx1: i64 = if (glyph_w as i64) < wx { glyph_w as i64 } else { wx };
        let gy1: i64 = if (glyph_h as i64) < hy { glyph_h as i64 } else { hy };
        if gy0 < gy1 {
            self.mark_dirty((yl + gy0) as u32, (yl + gy1) as u32);
        }
        let mut gy = gy0;
        while gy < gy1
            invariant
                self.wf(),
                self.width == old(self).width,
                self.height == old(self).height,
                self.background == old(self).background,
                self.foreground == old(self).foreground,
                self.dirty_rows@ == (if gy0 < gy1 { marked(old(self).dirty_rows@, yl + gy0, yl + gy1) } else { old(self).dirty_rows@ }),
                p0 == old(self).pixels@,
                w == self.width,
                xl == x,
                yl == y,
                gx0 == max_i(0, -x),
                gy0 == max_i(0, -y),
                gx1 == min_i(glyph_w as int, max_i(self.width - x, 0)),
                gy1 == min_i(glyph_h as int, max_i(self.height - y, 0)),
                gy0 <= gy,
                gy <= gy1 || gy1 < gy0,
                gy1 < gy0 ==> gy == gy0,
                glyph_w * glyph_h <= u32::MAX,
                coverage@.len() >= glyph_w * glyph_h,
                self.pixels@ == Seq::new(p0.len(), |i: int| {
                    let gxx = col_of(i, w) - x;
                    let gyy = row_of(i, w) - y;
                    if 0 <= gxx < glyph_w && 0 <= gyy < gy && gyy < glyph_h && coverage@[gyy * glyph_w + gxx] > 0 {
                        if p0[i] <= 255 - coverage@[gyy * glyph_w + gxx] { p0[i] } else { (255 - coverage@[gyy * glyph_w + gxx]) as u8 }
                    } else {
                        p0[i]
                    }
                }),
            decreases gy1 - gy,
        {
            let py = (yl + gy) as u32;
            let mut gx = gx0;
            while gx < gx1
                invariant
                    self.wf(),
                    self.width == old(self).width,
                    self.height == old(self).height,
                    self.background == old(self).background,
                    self.foreground == old(self).foreground,
                    self.dirty_rows@ == (if gy0 < gy1 { marked(old(self).dirty_rows@, yl + gy0, yl + gy1) } else { old(self).dirty_rows@ }),
                    p0 == old(self).pixels@,
                    w == self.width,
                    xl == x,
                    yl == y,
                    gx0 == max_i(0, -x),
                    gy0 == max_i(0, -y),
                    gx1 == min_i(glyph_w as int, max_i(self.width - x, 0)),
                    gy1 == min_i(glyph_h as int, max_i(self.height - y, 0)),
                    gy0 <= gy < gy1,
                    py == y + gy,
                    gx0 <= gx,
                    gx <= gx1 || gx1 < gx0,
                    gx1 < gx0 ==> gx == gx0,
                    glyph_w * glyph_h <= u32::MAX,
                    coverage@.len() >= glyph_w * glyph_h,
                    self.pixels@ == Seq::new(p0.len(), |i: int| {
                        let gxx = col_of(i, w) - x;
                        let gyy = row_of(i, w) - y;
                        if 0 <= gxx < glyph_w && ((0 <= gyy < gy) || (gyy == gy && gxx < gx)) && gyy < glyph_h && coverage@[gyy * glyph_w + gxx] > 0 {
                            if p0[i] <= 255 - coverage@[gyy * glyph_w + gxx] { p0[i] } else { (255 - coverage@[gyy * glyph_w + gxx]) as u8 }
                        } else {
                            p0[i]
                        }
                    }),
                decreases gx1 - gx,
            {
                let px = (xl + gx) as u32;
                proof {
                    lemma_index_of(gy as int, gx as int, glyph_w as int, glyph_h as int);
                    lemma_index_of(py as int, px as int, w, self.height as int);
                }
                let ci = (gy as u32 * glyph_w + gx as u32) as usize;
                let cov = coverage[ci];
                let idx = py * self.width + px;
                if cov > 0 {
                    let old_v = self.pixels[idx as usize];
                    let nv: u8 = if old_v <= 255 - cov { old_v } else { 255 - cov };
                    self.pixels.set(idx as usize, nv);
                }
                proof {
                    assert forall|i: int| 0 <= i < p0.len() implies self.pixels@[i] == ({
                        let gxx = col_of(i, w) - x;
                        let gyy = row_of(i, w) - y;
                        if 0 <= gxx < glyph_w && ((0 <= gyy < gy) || (gyy == gy && gxx < gx + 1)) && gyy < glyph_h && coverage@[gyy * glyph_w + gxx] > 0 {
                            if p0[i] <= 255 - coverage@[gyy * glyph_w + gxx] { p0[i] } else { (255 - coverage@[gyy * glyph_w + gxx]) as u8 }
                        } else {
                            p0[i]
                        }
                    }) by {
                        lemma_coords(i, w);
                        if i != idx && row_of(i, w) == py && col_of(i, w) == px {
                            assert(i == idx);
                        }
                    }
                }
                gx = gx + 1;
            }
            proof {
                assert forall|i: int| 0 <= i < p0.len() implies self.pixels@[i] == ({
                    let gxx = col_of(i, w) - x;
                    let gyy = row_of(i, w) - y;
                    if 0 <= gxx < glyph_w && 0 <= gyy < gy + 1 && gyy < glyph_h && coverage@[gyy * glyph_w + gxx] > 0 {
                        if p0[i] <= 255 - coverage@[gyy * glyph_w + gxx] { p0[i] } else { (255 - coverage@[gyy * glyph_w + gxx]) as u8 }
                    } else {
                        p0[i]
                    }
                }) by {
                    lemma_coords(i, w);
                }
            }
            gy = gy + 1;
        }
        proof {
            assert forall|i: int| 0 <= i < p0.len() implies self.pixels@[i] == glyph_blend(p0, w, x as int, y as int, glyph_w as int, glyph_h as int, coverage@)[i] by {
                lemma_coords(i, w);
                lemma_row_bound(i, w, self.height as int);
            }
            assert(self.pixels@ == glyph_blend(p0, w, x as int, y as int, glyph_w as int, glyph_h as int, coverage@));
        }
    }

    /// Scale an image by nearest-neighbor sampling to `dst_w` by `dst_h`
    /// and draw it at `(x, y)`, clipped: only pixels darker than white are
    /// drawn, each becoming the darker of itself and the image's; a row is
    /// marked when something in it was drawn.
    pub fn blit_image_nn(&mut self, x: u32, y: u32, dst_w: u32, dst_h: u32, src: &[u8], src_w: u32, src_h: u32)
        requires
            old(self).wf(),
            x <= old(self).width,
            y <= old(self).height,
            x + dst_w <= u32::MAX,
            y + dst_h <= u32::MAX,
            min_i(x + dst_w, old(self).width as int) > x && min_i(y + dst_h, old(self).height as int) > y ==> src_w > 0 && src_h > 0 && src@.len() >= src_w * src_h,
        ensures
            final(self).wf(),
            final(self).width == old(self).width,
            final(self).height == old(self).height,
            final(self).background == old(self).background,
            final(self).foreground == old(self).foreground,
            final(self).pixels@ == nn_blend(old(self).pixels@, old(self).width as int, x as int, min_i(x + dst_w, old(self).width as int), y as int, min_i(y + dst_h, old(self).height as int), src@, src_w as int, src_h as int, dst_w as int, dst_h as int),
            final(self).dirty_rows@ == nn_dirty(old(self).dirty_rows@, x as int, min_i(x + dst_w, old(self).width as int), y as int, min_i(y + dst_h, old(self).height as int), src@, src_w as int, src_h as int, dst_w as int, dst_h as int),
    {
        let x_end: u32 = if x + dst_w <= self.width { x + dst_w } else { self.width };
        let y_end: u32 = if y + dst_h <= self.height { y + dst_h } else { self.height };
        let out_w = x_end - x;
        let out_h = y_end - y;
        let ghost p0 = self.pixels@;
        let ghost d0 = self.dirty_rows@;
        let ghost w = self.width as int;
        if out_w == 0 || out_h == 0 {
            proof {
                assert(p0 == nn_blend(p0, w, x as int, x_end as int, y as int, y_end as int, src@, src_w as int, src_h as int, dst_w as int, dst_h as int));
                assert(d0 == nn_dirty(d0, x as int, x_end as int, y as int, y_end as int, src@, src_w as int, src_h as int, dst_w as int, dst_h as int));
            }
            return;
        }
        let n = src.len();
        let mut oy: u32 = 0;
        while oy < out_h
            invariant
                self.wf(),
                self.width == old(self).width,
                self.height == old(self).height,
                self.background == old(self).background,
                self.foreground == old(self).foreground,
                p0 == old(self).pixels@,
                d0 == old(self).dirty_rows@,
                w == self.width,
                n == src@.len(),
                x < x_end <= self.width,
                y < y_end <= self.height,
                out_w == x_end - x,
                out_h == y_end - y,
                x_end <= x + dst_w,
                y_end <= y + dst_h,
                src_w > 0 && src_h > 0 && src@.len() >= src_w * src_h,
                oy <= out_h,
                self.pixels@ == nn_blend(p0, w, x as int, x_end as int, y as int, y + oy, src@, src_w as int, src_h as int, dst_w as int, dst_h as int),
                self.dirty_rows@ == nn_dirty(d0, x as int, x_end as int, y as int, y + oy, src@, src_w as int, src_h as int, dst_w as int, dst_h as int),
            decreases out_h - oy,
        {
            proof {
                lemma_nn_bound(oy as int, src_h as int, dst_h as int);
                assert((oy as int) * (src_h as int) <= u64::MAX) by (nonlinear_arith)
                    requires
                        oy <= u32::MAX,
                        src_h <= u32::MAX,
                ;
            }
            let sy = ((oy as u64) * (src_h as u64) / (dst_h as u64)) as usize;
            let py = y + oy;
            let mut row_dirty = false;
            let mut ox: u32 = 0;
            while ox < out_w
                invariant
                    self.wf(),
                    self.width == old(self).width,
                    self.height == old(self).height,
                    self.background == old(self).background,
                    self.foreground == old(self).foreground,
                    self.dirty_rows@ == nn_dirty(d0, x as int, x_end as int, y as int, y + oy, src@, src_w as int, src_h as int, dst_w as int, dst_h as int),
                    p0 == old(self).pixels@,
                    w == self.width,
                    n == src@.len(),
                    x < x_end <= self.width,
                    y <= py < y_end <= self.height,
                    py == y + oy,
                    out_w == x_end - x,
                    x_end <= x + dst_w,
                    y_end <= y + dst_h,
                    oy < out_h,
                    out_h == y_end - y,
                    sy == nn_src(oy as int, src_h as int, dst_h as int),
                    sy < src_h,
                    src_w > 0 && src_h > 0 && src@.len() >= src_w * src_h,
                    ox <= out_w,
                    row_dirty == exists|c: int| x <= c < x + ox && #[trigger] nn_hit(src@, src_w as int, src_h as int, dst_w as int, dst_h as int, x as int, y as int, c, py as int),
                    self.pixels@ == Seq::new(p0.len(), |i: int| if ((y <= row_of(i, w) < py) || (row_of(i, w) == py && col_of(i, w) < x + ox)) && x <= col_of(i, w) < x_end && nn_val(src@, src_w as int, src_h as int, dst_w as int, dst_h as int, col_of(i, w) - x, row_of(i, w) - y) < 255 {
                        let v = nn_val(src@, src_w as int, src_h as int, dst_w as int, dst_h as int, col_of(i, w) - x, row_of(i, w) - y);
                        if p0[i] <= v { p0[i] } else { v }
                    } else {
                        p0[i]
                    }),
                decreases out_w - ox,
            {
                proof {
                    lemma_nn_bound(ox as int, src_w as int, dst_w as int);
                    assert((ox as int) * (src_w as int) <= u64::MAX) by (nonlinear_arith)
                        requires
                            ox <= u32::MAX,
                            src_w <= u32::MAX,
                    ;
                }
                let sx = ((ox as u64) * (src_w as u64) / (dst_w as u64)) as usize;
                proof {
                    lemma_index_of(sy as int, sx as int, src_w as int, src_h as int);
                    lemma_index_of(py as int, (x + ox) as int, w, self.height as int);
                }
                let si = sy * src_w as usize + sx;
                let val = src[si];
                let idx = py * self.width + x + ox;
                if val < 255 {
                    let old_v = self.pixels[idx as usize];
                    let nv = if old_v <= val { old_v } else { val };
                    self.pixels.set(idx as usize, nv);
                    row_dirty = true;
                }
                proof {
                    assert(nn_val(src@, src_w as int, src_h as int, dst_w as int, dst_h as int, ox as int, py - y) == val);
                    assert forall|i: int| 0 <= i < p0.len() implies self.pixels@[i] == (if ((y <= row_of(i, w) < py) || (row_of(i, w) == py && col_of(i, w) < x + ox + 1)) && x <= col_of(i, w) < x_end && nn_val(src@, src_w as int, src_h as int, dst_w as int, dst_h as int, col_of(i, w) - x, row_of(i, w) - y) < 255 {
                        let v = nn_val(src@, src_w as int, src_h as int, dst_w as int, dst_h as int, col_of(i, w) - x, row_of(i, w) - y);
                        if p0[i] <= v { p0[i] } else { v }
                    } else {
                        p0[i]
                    }) by {
                        lemma_coords(i, w);
                        if i != idx && row_of(i, w) == py && col_of(i, w) == x + ox {
                            assert(i == idx);
                        }
                    }
                    if val < 255 {
                        assert(nn_hit(src@, src_w as int, src_h as int, dst_w as int, dst_h as int, x as int, y as int, (x + ox) as int, py as int));
                    } else {
                        assert(!nn_hit(src@, src_w as int, src_h as int, dst_w as int, dst_h as int, x as int, y as int, (x + ox) as int, py as int));
                    }
                }
                ox = ox + 1;
            }
            if row_dirty {
                self.dirty_rows.set(py as usize, true);
            }
            proof {
                assert forall|i: int| 0 <= i < p0.len() implies self.pixels@[i] == nn_blend(p0, w, x as int, x_end as int, y as int, y + oy + 1, src@, src_w as int, src_h as int, dst_w as int, dst_h as int)[i] by {
                    lemma_coords(i, w);
                }
                assert(self.pixels@ == nn_blend(p0, w, x as int, x_end as int, y as int, y + oy + 1, src@, src_w as int, src_h as int, dst_w as int, dst_h as int));
                assert(self.dirty_rows@ == nn_dirty(d0, x as int, x_end as int, y as int, y + oy + 1, src@, src_w as int, src_h as int, dst_w as int, dst_h as int));
            }
            oy = oy + 1;
        }
    }

    /// Blit a one-byte-per-module bitmap (0 dark) scaled up by `scale`:
    /// each module becomes a `scale`-pixel square of `fg` or `bg`, drawn
    /// with [`Canvas::fill_rect`] row by row.
    pub fn blit_bitmap_scaled(&mut self, x: u32, y: u32, src_w: u32, src_h: u32, src: &[u8], scale: u32, fg: u8, bg: u8)
        requires
            old(self).wf(),
            src_w * src_h <= u32::MAX,
            src@.len() >= src_w * src_h,
            x + src_w * scale <= u32::MAX,
            y + src_h * scale <= u32::MAX,
            forall|sy: int, sx: int| 0 <= sy < src_h && 0 <= sx < src_w ==> #[trigger] block_fits(x as int, y as int, scale as int, old(self).width as int, old(self).height as int, sy, sx),
        ensures
            final(self).wf(),
            final(self).width == old(self).width,
            final(self).height == old(self).height,
            final(self).background == old(self).background,
            final(self).foreground == old(self).foreground,
            (final(self).pixels@, final(self).dirty_rows@) == bitmap_state(old(self).pixels@, old(self).dirty_rows@, old(self).width as int, old(self).height as int, x as int, y as int, src_w as int, src@, scale as int, fg, bg, src_w * src_h),
    {
        let ghost p0 = self.pixels@;
        let ghost d0 = self.dirty_rows@;
        let ghost cw = self.width as int;
        let ghost ch = self.height as int;
        let mut sy: u32 = 0;
        while sy < src_h
            invariant
                self.wf(),
                self.width == old(self).width,
                self.height == old(self).height,
                self.background == old(self).background,
                self.foreground == old(self).foreground,
                p0 == old(self).pixels@,
                d0 == old(self).dirty_rows@,
                cw == self.width,
                ch == self.height,
                src_w * src_h <= u32::MAX,
                src@.len() >= src_w * src_h,
                x + src_w * scale <= u32::MAX,
                y + src_h * scale <= u32::MAX,
                forall|a: int, b: int| 0 <= a < src_h && 0 <= b < src_w ==> #[trigger] block_fits(x as int, y as int, scale as int, cw, ch, a, b),
                sy <= src_h,
                (self.pixels@, self.dirty_rows@) == bitmap_state(p0, d0, cw, ch, x as int, y as int, src_w as int, src@, scale as int, fg, bg, sy * src_w),
            decreases src_h - sy,
        {
            let mut sx: u32 = 0;
            while sx < src_w
                invariant
                    self.wf(),
                    self.width == old(self).width,
                    self.height == old(self).height,
                    self.background == old(self).background,
                    self.foreground == old(self).foreground,
                    p0 == old(self).pixels@,
                    d0 == old(self).dirty_rows@,
                    cw == self.width,
                    ch == self.height,
                    src_w * src_h <= u32::MAX,
                    src@.len() >= src_w * src_h,
                    x + src_w * scale <= u32::MAX,
                    y + src_h * scale <= u32::MAX,
                    forall|a: int, b: int| 0 <= a < src_h && 0 <= b < src_w ==> #[trigger] block_fits(x as int, y as int, scale as int, cw, ch, a, b),
                    sy < src_h,
                    sx <= src_w,
                    (self.pixels@, self.dirty_rows@) == bitmap_state(p0, d0, cw, ch, x as int, y as int, src_w as int, src@, scale as int, fg, bg, sy * src_w + sx),
                decreases src_w - sx,
            {
                proof {
                    lemma_index_of(sy as int, sx as int, src_w as int, src_h as int);
                    assert(sx * scale + scale <= src_w * scale) by (nonlinear_arith)
                        requires
                            sx < src_w,
                    ;
                    assert(sy * scale + scale <= src_h * scale) by (nonlinear_arith)
                        requires
                            sy < src_h,
                    ;
                    assert(0 <= sx * scale && 0 <= sy * scale) by (nonlinear_arith);
                }
                let k = sy * src_w + sx;
                assert(block_fits(x as int, y as int, scale as int, cw, ch, sy as int, sx as int));
                let val = src[k as usize];
                let color = if val == 0 { fg } else { bg };
                let dest_x = x + sx * scale;
                let dest_y = y + sy * scale;
                self.fill_rect(dest_x, dest_y, scale, scale, color);
                sx = sx + 1;
            }
            assert(sy * src_w + src_w == (sy + 1) * src_w) by (nonlinear_arith);
            sy = sy + 1;
        }
        assert(sy * src_w == src_w * src_h) by (nonlinear_arith)
            requires
                sy == src_h,
        ;
    }
}

/// Module `(sy, sx)` of a scaled bitmap at `(x, y)` can be filled: when
/// its square covers a column, its top is within the canvas.
pub open spec fn block_fits(x: int, y: int, scale: int, cw: int, ch: int, sy: int, sx: int) -> bool {
    min_i(x + sx * scale + scale, cw) > x + sx * scale ==> y + sy * scale <= ch
}

/// The pixels of a rectangle fill, clipped to a `cw` by `ch` canvas.
pub open spec fn fill_pixels(p: Seq<u8>, cw: int, ch: int, x: int, y: int, w: int, h: int, v: u8) -> Seq<u8> {
    filled(p, cw, x, min_i(x + w, cw), y, min_i(y + h, ch), v)
}

/// The marked rows after a rectangle fill: its rows when it covers any
/// column.
pub open spec fn fill_dirty(d: Seq<bool>, cw: int, ch: int, x: int, y: int, w: int, h: int) -> Seq<bool> {
    if min_i(x + w, cw) > x { marked(d, y, min_i(y + h, ch)) } else { d }
}

/// The canvas after the first `k` modules of a scaled bitmap, in row
/// order: each a `scale`-square of `fg` (module 0) or `bg`.
pub open spec fn bitmap_state(p: Seq<u8>, d: Seq<bool>, cw: int, ch: int, x: int, y: int, sw: int, src: Seq<u8>, scale: int, fg: u8, bg: u8, k: int) -> (Seq<u8>, Seq<bool>)
    decreases k,
{
    if k <= 0 {
        (p, d)
    } else {
        let prev = bitmap_state(p, d, cw, ch, x, y, sw, src, scale, fg, bg, k - 1);
        let i = k - 1;
        let dx = x + (i % sw) * scale;
        let dy = y + (i / sw) * scale;
        let color = if src[i] == 0 { fg } else { bg };
        (fill_pixels(prev.0, cw, ch, dx, dy, scale, scale, color), fill_dirty(prev.1, cw, ch, dx, dy, scale, scale))
    }
}

/// The pixel a nearest-neighbor scaled image has at `(ox, oy)`.
pub open spec fn nn_val(src: Seq<u8>, sw: int, sh: int, dw: int, dh: int, ox: int, oy: int) -> u8 {
    src[nn_src(oy, sh, dh) * sw + nn_src(ox, sw, dw)]
}

/// Pixels with a nearest-neighbor scaled image drawn over rows `y0..y1`
/// and columns `x0..x1`: its non-white pixels darken the canvas.
pub open spec fn nn_blend(p: Seq<u8>, w: int, x0: int, x1: int, y0: int, y1: int, src: Seq<u8>, sw: int, sh: int, dw: int, dh: int) -> Seq<u8> {
    Seq::new(p.len(), |i: int| if y0 <= row_of(i, w) < y1 && x0 <= col_of(i, w) < x1 && nn_val(src, sw, sh, dw, dh, col_of(i, w) - x0, row_of(i, w) - y0) < 255 {
        let v = nn_val(src, sw, sh, dw, dh, col_of(i, w) - x0, row_of(i, w) - y0);
        if p[i] <= v { p[i] } else { v }
    } else {
        p[i]
    })
}

/// Rows marked when a scaled image drawn over rows `y0..y1` and columns
/// `x0..x1` has a non-white pixel in them.
pub open spec fn nn_dirty(d: Seq<bool>, x0: int, x1: int, y0: int, y1: int, src: Seq<u8>, sw: int, sh: int, dw: int, dh: int) -> Seq<bool> {
    Seq::new(d.len(), |r: int| d[r] || (y0 <= r < y1 && exists|c: int| x0 <= c < x1 && #[trigger] nn_hit(src, sw, sh, dw, dh, x0, y0, c, r)))
}

/// Whether the scaled image placed at `(x0, y0)` is darker than white at
/// canvas column `c` of row `r`.
pub open spec fn nn_hit(src: Seq<u8>, sw: int, sh: int, dw: int, dh: int, x0: int, y0: int, c: int, r: int) -> bool {
    nn_val(src, sw, sh, dw, dh, c - x0, r - y0) < 255
}

/// Pixels with a glyph's coverage blended in at `(x, y)`: each covered
/// pixel becomes the darker of itself and `255 - coverage`.
pub open spec fn glyph_blend(p: Seq<u8>, w: int, x: int, y: int, gw: int, gh: int, cov: Seq<u8>) -> Seq<u8> {
    Seq::new(p.len(), |i: int| {
        let gx = col_of(i, w) - x;
        let gy = row_of(i, w) - y;
        if 0 <= gx < gw && 0 <= gy < gh && cov[gy * gw + gx] > 0 {
            if p[i] <= 255 - cov[gy * gw + gx] { p[i] } else { (255 - cov[gy * gw + gx]) as u8 }
        } else {
            p[i]
        }
    })
}

/// Pixels with a dotted line over rows `y0..y1` and columns `x0..x1`: the
/// first 6 of every 11 columns from `x0`.
pub open spec fn dotted(p: Seq<u8>, w: int, x0: int, x1: int, y0: int, y1: int, v: u8) -> Seq<u8> {
    Seq::new(p.len(), |i: int| if y0 <= row_of(i, w) < y1 && x0 <= col_of(i, w) < x1 && (col_of(i, w) - x0) % 11 < 6 { v } else { p[i] })
}

/// Pixels with the rectangle of rows `y0..y1` and columns `x0..x1` copied
/// from a `src_w`-wide image placed at `(x0, y0)`.
pub open spec fn copied(p: Seq<u8>, w: int, x0: int, x1: int, y0: int, y1: int, src: Seq<u8>, src_w: int) -> Seq<u8> {
    Seq::new(p.len(), |i: int| if y0 <= row_of(i, w) < y1 && x0 <= col_of(i, w) < x1 {
        src[(row_of(i, w) - y0) * src_w + (col_of(i, w) - x0)]
    } else {
        p[i]
    })
}

/// Drawing a glyph is idempotent — the darker value wins, so drawing the
/// same glyph again at the same place changes nothing — and two glyph
/// draws give the same pixels in either order. Marking rows is likewise
/// idempotent and order-free.
pub proof fn law_glyph_darkest_wins(
    p: Seq<u8>,
    w: int,
    x1: int,
    y1: int,
    gw1: int,
    gh1: int,
    cov1: Seq<u8>,
    x2: int,
    y2: int,
    gw2: int,
    gh2: int,
    cov2: Seq<u8>,
    d: Seq<bool>,
    a1: int,
    b1: int,
    a2: int,
    b2: int,
)
    ensures
        glyph_blend(glyph_blend(p, w, x1, y1, gw1, gh1, cov1), w, x1, y1, gw1, gh1, cov1) == glyph_blend(p, w, x1, y1, gw1, gh1, cov1),
        glyph_blend(glyph_blend(p, w, x1, y1, gw1, gh1, cov1), w, x2, y2, gw2, gh2, cov2)
            == glyph_blend(glyph_blend(p, w, x2, y2, gw2, gh2, cov2), w, x1, y1, gw1, gh1, cov1),
        marked(marked(d, a1, b1), a1, b1) == marked(d, a1, b1),
        marked(marked(d, a1, b1), a2, b2) == marked(marked(d, a2, b2), a1, b1),
{
    let g1 = glyph_blend(p, w, x1, y1, gw1, gh1, cov1);
    assert(glyph_blend(g1, w, x1, y1, gw1, gh1, cov1) =~= g1);
    let g2 = glyph_blend(p, w, x2, y2, gw2, gh2, cov2);
    assert(glyph_blend(g1, w, x2, y2, gw2, gh2, cov2) =~= glyph_blend(g2, w, x1, y1, gw1, gh1, cov1));
    assert(marked(marked(d, a1, b1), a1, b1) =~= marked(d, a1, b1));
    assert(marked(marked(d, a1, b1), a2, b2) =~= marked(marked(d, a2, b2), a1, b1));
}

} // verus!
