use vstd::prelude::*;
use vstd::arithmetic::div_mod::{lemma_fundamental_div_mod, lemma_fundamental_div_mod_converse};
use crate::raster::{
    abs,
    glyph_pixel,
    high,
    in_cell,
    in_disc,
    in_frame,
    in_rectangle,
    lemma_decode,
    lemma_disc_bounds,
    lemma_index_bound,
    lemma_painted_none,
    lemma_painted_same,
    lemma_painted_union,
    line_from,
    low,
    octant_point,
    on_circle,
    on_glyph,
    on_glyph_upto,
    on_line,
    on_quarter,
    on_rectangle_border,
    outline_from,
    painted,
    quarter_from,
    quarter_points,
    rounded_corners,
    rounded_sides,
};
use vstd::string::StrSliceExecFns;

verus! {

/// A frame of pixels, `bytes_per_pixel` bytes each, stored blue, green, red, row after
/// row, `width` pixels to a row.
pub struct Display {
    pub width: usize,
    pub height: usize,
    pub line_byte_length: usize,
    pub bytes_per_pixel: usize,
    pub buffer: Vec<u8>,
}

/// A bitmap font: the glyph of each character from the space on, row after row, one
/// byte per pixel, 1 where the pixel is set. Every glyph is `height` rows high and as
/// many columns wide as its length allows.
pub struct Font {
    pub glyphs: Vec<Vec<u8>>,
    pub height: usize,
}

impl Font {
    /// The glyph of `c`.
    pub open spec fn glyph(&self, c: char) -> Seq<u8> {
        self.glyphs@[c as int - 32]@
    }

    /// How many columns wide the glyph of `c` is.
    pub open spec fn width(&self, c: char) -> int {
        (self.glyph(c).len() as int) / (self.height as int)
    }

    /// Every character of `text` has a glyph.
    pub open spec fn covers(&self, text: Seq<char>) -> bool {
        forall|k: int| 0 <= k < text.len() ==> 32 <= #[trigger] (text[k] as int) < 32 + self.glyphs@.len()
    }

    /// How far right of the start character `k` of `text` is drawn.
    pub open spec fn advance(&self, text: Seq<char>, k: int, scale: int, spacing: int) -> int
        decreases k,
    {
        if k <= 0 {
            0
        } else {
            self.advance(text, k - 1, scale, spacing) + scale * self.width(text[k - 1]) + spacing
        }
    }
}

/// `(a, b)` is set when the first `n` characters of `text` are drawn in `font` from
/// `(x, y)`.
pub open spec fn on_text_upto(
    a: int,
    b: int,
    text: Seq<char>,
    font: &Font,
    x: int,
    y: int,
    scale: int,
    spacing: int,
    n: int,
) -> bool {
    exists|k: int|
        0 <= k < n && #[trigger] on_glyph(
            a,
            b,
            font.glyph(text[k]),
            font.width(text[k]),
            font.height as int,
            x + font.advance(text, k, scale, spacing),
            y,
            scale,
        )
}

/// `buf` with an image of `iw` by `ih` pixels, stored as red, green, blue and alpha
/// bytes row after row in `rgba`, drawn from `(sx, sy)` into a frame `width` pixels
/// wide and `height` high whose pixels take four bytes: among the pixels the first
/// `rows` rows of the image and `cols` more pixels of the next cover, those inside the
/// frame and not wholly transparent take the image's color.
pub open spec fn blitted_upto(
    buf: Seq<u8>,
    width: int,
    height: int,
    rgba: Seq<u8>,
    iw: int,
    ih: int,
    sx: int,
    sy: int,
    rows: int,
    cols: int,
) -> Seq<u8> {
    Seq::new(
        buf.len(),
        |k: int|
            {
                let p = k / 4;
                let c = k % 4;
                let a = p % width;
                let b = p / width;
                let x = a - sx;
                let y = b - sy;
                let s = (y * iw + x) * 4;
                if c < 3 && 0 <= a < width && b < height && 0 <= x < iw && 0 <= y < ih && (y < rows
                    || y == rows && x < cols) && 4 * p + 3 < buf.len() && rgba[s + 3] != 0 {
                    rgba[s + 2 - c]
                } else {
                    buf[k]
                }
            },
    )
}

impl Display {
    /// Pixels take at least three bytes, a row of pixels fits in a line, and the buffer
    /// holds `height` lines.
    pub open spec fn wf(&self) -> bool {
        &&& 3 <= self.bytes_per_pixel
        &&& self.width * self.bytes_per_pixel <= self.line_byte_length
        &&& self.buffer@.len() == self.line_byte_length * self.height
    }

    /// The buffer with the pixels of `region` set to `color`.
    pub open spec fn painted(&self, region: spec_fn(int, int) -> bool, color: (u8, u8, u8)) -> Seq<u8> {
        painted(self.buffer@, self.width as int, self.bytes_per_pixel as int, region, color)
    }

    /// A black frame of `height` lines of `line_byte_length` bytes.
    pub fn new(width: usize, height: usize, line_byte_length: usize, bytes_per_pixel: usize) -> (r:
        Display)
        requires
            3 <= bytes_per_pixel,
            width * bytes_per_pixel <= line_byte_length,
            line_byte_length * height <= usize::MAX,
        ensures
            r.wf(),
            r.width == width,
            r.height == height,
            r.line_byte_length == line_byte_length,
            r.bytes_per_pixel == bytes_per_pixel,
            r.buffer@ == Seq::new((line_byte_length * height) as nat, |i: int| 0u8),
    {
        let n = line_byte_length * height;
        let buffer = zero_bytes(n);
        Display { width, height, line_byte_length, bytes_per_pixel, buffer }
    }

    /// Starts a frame: every byte goes back to 0.
    pub fn frame_start(&mut self)
        ensures
            final(self).buffer@ == Seq::new(old(self).buffer@.len(), |i: int| 0u8),
            final(self).width == old(self).width,
            final(self).height == old(self).height,
            final(self).line_byte_length == old(self).line_byte_length,
            final(self).bytes_per_pixel == old(self).bytes_per_pixel,
    {
        let n = self.buffer.len();
        let mut i: usize = 0;
        while i < n
            invariant
                i <= n,
                self.buffer@.len() == n,
                self.width == old(self).width,
                self.height == old(self).height,
                self.line_byte_length == old(self).line_byte_length,
                self.bytes_per_pixel == old(self).bytes_per_pixel,
                forall|k: int| 0 <= k < i ==> self.buffer@[k] == 0u8,
            decreases n - i,
        {
            self.buffer[i] = 0;
            i += 1;
        }
        assert(self.buffer@ =~= Seq::new(n as nat, |i: int| 0u8));
    }

    /// Sets the pixel at column `x`, row `y`, which must lie in the frame.
    fn paint_pixel(&mut self, x: usize, y: usize, color: (u8, u8, u8))
        requires
            old(self).wf(),
            x < old(self).width,
            y < old(self).height,
        ensures
            final(self).wf(),
            final(self).width == old(self).width,
            final(self).height == old(self).height,
            final(self).line_byte_length == old(self).line_byte_length,
            final(self).bytes_per_pixel == old(self).bytes_per_pixel,
            final(self).buffer@ == old(self).painted(|a: int, b: int| a == x && b == y, color),
    {
        let ghost w = self.width as int;
        let ghost bpp = self.bytes_per_pixel as int;
        let ghost old_buf = self.buffer@;
        let len = self.buffer.len();
        proof {
            lemma_index_bound(w, self.height as int, bpp, self.line_byte_length as int, x as int, y as int);
        }
        let index = (y * self.width + x) * self.bytes_per_pixel;
        self.buffer[index + 2] = color.0;
        self.buffer[index + 1] = color.1;
        self.buffer[index] = color.2;
        proof {
            let region = |a: int, b: int| a == x && b == y;
            let target = painted(old_buf, w, bpp, region, color);
            assert forall|k: int| 0 <= k < old_buf.len() implies #[trigger] self.buffer@[k] == target[k] by {
                lemma_decode(w, bpp, x as int, y as int, k, index as int);
            }
            assert(self.buffer@ =~= target);
        }
    }

    /// The frame's shape is that of `other`.
    pub open spec fn same_frame(&self, other: &Display) -> bool {
        &&& self.width == other.width
        &&& self.height == other.height
        &&& self.line_byte_length == other.line_byte_length
        &&& self.bytes_per_pixel == other.bytes_per_pixel
    }

    /// Paints row `y` from column `x0` to column `x1`, both included.
    fn paint_row(&mut self, x0: usize, x1: usize, y: usize, color: (u8, u8, u8))
        requires
            old(self).wf(),
            x0 <= x1 < old(self).width,
            y < old(self).height,
        ensures
            final(self).wf(),
            final(self).same_frame(old(self)),
            final(self).buffer@ == old(self).painted(
                |a: int, b: int| b == y && x0 <= a <= x1,
                color,
            ),
    {
        let ghost w = self.width as int;
        let ghost bpp = self.bytes_per_pixel as int;
        let ghost start = self.buffer@;
        proof {
            lemma_painted_none(start, w, bpp, color);
            lemma_painted_same(start, w, bpp, |a: int, b: int| false, |a: int, b: int| b == y && x0 <= a < x0, color);
        }
        let mut x = x0;
        while x <= x1
            invariant
                self.wf(),
                self.same_frame(old(self)),
                w == self.width,
                bpp == self.bytes_per_pixel,
                x1 < self.width,
                y < self.height,
                x0 <= x <= x1 + 1,
                self.buffer@ == painted(start, w, bpp, |a: int, b: int| b == y && x0 <= a < x, color),
            decreases x1 + 1 - x,
        {
            let ghost before = self.buffer@;
            self.paint_pixel(x, y, color);
            proof {
                lemma_painted_union(
                    start,
                    w,
                    bpp,
                    |a: int, b: int| b == y && x0 <= a < x,
                    |a: int, b: int| a == x && b == y,
                    |a: int, b: int| b == y && x0 <= a < x + 1,
                    color,
                );
            }
            x += 1;
        }
        proof {
            lemma_painted_same(start, w, bpp, |a: int, b: int| b == y && x0 <= a < x, |a: int, b: int| b == y && x0 <= a <= x1, color);
        }
    }

    /// Draws the rectangle with corners `(x0, y0)` and `(x1, y1)`, given in either order:
    /// filled, or its border only. Both corners must lie in the frame.
    pub fn draw_rectangle(
        &mut self,
        x0: usize,
        y0: usize,
        x1: usize,
        y1: usize,
        color: (u8, u8, u8),
        fill: bool,
    )
        requires
            old(self).wf(),
            x0 < old(self).width,
            x1 < old(self).width,
            y0 < old(self).height,
            y1 < old(self).height,
        ensures
            final(self).wf(),
            final(self).same_frame(old(self)),
            final(self).buffer@ == if fill {
                old(self).painted(
                    |a: int, b: int| in_rectangle(a, b, x0 as int, y0 as int, x1 as int, y1 as int),
                    color,
                )
            } else {
                old(self).painted(
                    |a: int, b: int|
                        on_rectangle_border(a, b, x0 as int, y0 as int, x1 as int, y1 as int),
                    color,
                )
            },
    {
        let ghost w = self.width as int;
        let ghost bpp = self.bytes_per_pixel as int;
        let ghost start = self.buffer@;
        let ghost (ox0, oy0, ox1, oy1) = (x0 as int, y0 as int, x1 as int, y1 as int);
        let (x0, x1) = if x0 < x1 {
            (x0, x1)
        } else {
            (x1, x0)
        };
        let (y0, y1) = if y0 < y1 {
            (y0, y1)
        } else {
            (y1, y0)
        };
        if fill {
            proof {
                lemma_painted_none(start, w, bpp, color);
                lemma_painted_same(start, w, bpp, |a: int, b: int| false, |a: int, b: int| x0 <= a <= x1 && y0 <= b < y0, color);
            }
            let mut y = y0;
            while y <= y1
                invariant
                    self.wf(),
                    self.same_frame(old(self)),
                    w == self.width,
                    bpp == self.bytes_per_pixel,
                    x0 <= x1 < self.width,
                    y0 <= y <= y1 + 1,
                    y1 < self.height,
                    self.buffer@ == painted(
                        start,
                        w,
                        bpp,
                        |a: int, b: int| x0 <= a <= x1 && y0 <= b < y,
                        color,
                    ),
                decreases y1 + 1 - y,
            {
                self.paint_row(x0, x1, y, color);
                proof {
                    lemma_painted_union(
                        start,
                        w,
                        bpp,
                        |a: int, b: int| x0 <= a <= x1 && y0 <= b < y,
                        |a: int, b: int| b == y && x0 <= a <= x1,
                        |a: int, b: int| x0 <= a <= x1 && y0 <= b < y + 1,
                        color,
                    );
                }
                y += 1;
            }
            proof {
                lemma_painted_same(
                    start,
                    w,
                    bpp,
                    |a: int, b: int| x0 <= a <= x1 && y0 <= b < y,
                    |a: int, b: int| in_rectangle(a, b, ox0, oy0, ox1, oy1),
                    color,
                );
            }
        } else {
            self.paint_row(x0, x1, y0, color);
            self.paint_row(x0, x1, y1, color);
            proof {
                lemma_painted_union(
                    start,
                    w,
                    bpp,
                    |a: int, b: int| b == y0 && x0 <= a <= x1,
                    |a: int, b: int| b == y1 && x0 <= a <= x1,
                    |a: int, b: int| (b == y0 || b == y1) && x0 <= a <= x1,
                    color,
                );
                lemma_painted_same(
                    start,
                    w,
                    bpp,
                    |a: int, b: int| (b == y0 || b == y1) && x0 <= a <= x1,
                    |a: int, b: int| (b == y0 || b == y1) && x0 <= a <= x1 || (a == x0 || a == x1) && y0 < b < y0 + 1,
                    color,
                );
            }
            let mut y = y0 + 1;
            while y < y1
                invariant
                    self.wf(),
                    self.same_frame(old(self)),
                    w == self.width,
                    bpp == self.bytes_per_pixel,
                    x0 <= x1 < self.width,
                    y0 < y,
                    y <= y1 || y == y0 + 1,
                    y1 < self.height,
                    self.buffer@ == painted(
                        start,
                        w,
                        bpp,
                        |a: int, b: int| (b == y0 || b == y1) && x0 <= a <= x1 || (a == x0 || a == x1) && y0 < b < y,
                        color,
                    ),
                decreases y1 - y,
            {
                self.paint_pixel(x0, y, color);
                self.paint_pixel(x1, y, color);
                proof {
                    lemma_painted_union(
                        start,
                        w,
                        bpp,
                        |a: int, b: int| (b == y0 || b == y1) && x0 <= a <= x1 || (a == x0 || a == x1) && y0 < b < y,
                        |a: int, b: int| a == x0 && b == y,
                        |a: int, b: int| (b == y0 || b == y1) && x0 <= a <= x1 || (a == x0 || a == x1) && y0 < b < y || a == x0 && b == y,
                        color,
                    );
                    lemma_painted_union(
                        start,
                        w,
                        bpp,
                        |a: int, b: int| (b == y0 || b == y1) && x0 <= a <= x1 || (a == x0 || a == x1) && y0 < b < y || a == x0 && b == y,
                        |a: int, b: int| a == x1 && b == y,
                        |a: int, b: int| (b == y0 || b == y1) && x0 <= a <= x1 || (a == x0 || a == x1) && y0 < b < y + 1,
                        color,
                    );
                }
                y += 1;
            }
            proof {
                lemma_painted_same(
                    start,
                    w,
                    bpp,
                    |a: int, b: int| (b == y0 || b == y1) && x0 <= a <= x1 || (a == x0 || a == x1) && y0 < b < y,
                    |a: int, b: int| on_rectangle_border(a, b, ox0, oy0, ox1, oy1),
                    color,
                );
            }
        }
    }

    /// Sets the pixel at `(px, py)` where it lies in the frame.
    fn plot(&mut self, px: isize, py: isize, color: (u8, u8, u8))
        requires
            old(self).wf(),
        ensures
            final(self).wf(),
            final(self).same_frame(old(self)),
            final(self).buffer@ == old(self).painted(
                |a: int, b: int|
                    a == px && b == py && in_frame(a, b, old(self).width as int, old(self).height as int),
                color,
            ),
    {
        let ghost w = self.width as int;
        let ghost h = self.height as int;
        let ghost bpp = self.bytes_per_pixel as int;
        if px >= 0 && py >= 0 && (px as usize) < self.width && (py as usize) < self.height {
            self.paint_pixel(px as usize, py as usize, color);
            proof {
                lemma_painted_same(
                    old(self).buffer@,
                    w,
                    bpp,
                    |a: int, b: int| a == px as usize && b == py as usize,
                    |a: int, b: int| a == px && b == py && in_frame(a, b, w, h),
                    color,
                );
            }
        } else {
            proof {
                lemma_painted_none(self.buffer@, w, bpp, color);
                lemma_painted_same(
                    self.buffer@,
                    w,
                    bpp,
                    |a: int, b: int| false,
                    |a: int, b: int| a == px && b == py && in_frame(a, b, w, h),
                    color,
                );
            }
        }
    }

    /// Plots the eight octant points at offsets `x` and `y` around `(cx, cy)` that lie
    /// in the frame.
    fn plot_octants(&mut self, cx: isize, cy: isize, x: isize, y: isize, color: (u8, u8, u8))
        requires
            old(self).wf(),
            0 <= y <= x,
            cx as int + x as int <= isize::MAX,
            cy as int + x as int <= isize::MAX,
            cx as int - x as int >= isize::MIN,
            cy as int - x as int >= isize::MIN,
        ensures
            final(self).wf(),
            final(self).same_frame(old(self)),
            final(self).buffer@ == old(self).painted(
                |a: int, b: int|
                    octant_point(cx as int, cy as int, x as int, y as int, a, b) && in_frame(
                        a,
                        b,
                        old(self).width as int,
                        old(self).height as int,
                    ),
                color,
            ),
    {
        let ghost w = self.width as int;
        let ghost h = self.height as int;
        let ghost bpp = self.bytes_per_pixel as int;
        let ghost start = self.buffer@;
        let ghost (gx, gy, gcx, gcy) = (x as int, y as int, cx as int, cy as int);
        self.plot(cx + x, cy + y, color);
        let ghost r1 = |a: int, b: int| a == gcx + gx && b == gcy + gy && in_frame(a, b, w, h);
        self.plot(cx + y, cy + x, color);
        let ghost r2 = |a: int, b: int| r1(a, b) || a == gcx + gy && b == gcy + gx && in_frame(a, b, w, h);
        proof {
            lemma_painted_union(start, w, bpp, r1, |a: int, b: int| a == gcx + gy && b == gcy + gx && in_frame(a, b, w, h), r2, color);
        }
        self.plot(cx - y, cy + x, color);
        let ghost r3 = |a: int, b: int| r2(a, b) || a == gcx - gy && b == gcy + gx && in_frame(a, b, w, h);
        proof {
            lemma_painted_union(start, w, bpp, r2, |a: int, b: int| a == gcx - gy && b == gcy + gx && in_frame(a, b, w, h), r3, color);
        }
        self.plot(cx - x, cy + y, color);
        let ghost r4 = |a: int, b: int| r3(a, b) || a == gcx - gx && b == gcy + gy && in_frame(a, b, w, h);
        proof {
            lemma_painted_union(start, w, bpp, r3, |a: int, b: int| a == gcx - gx && b == gcy + gy && in_frame(a, b, w, h), r4, color);
        }
        self.plot(cx - x, cy - y, color);
        let ghost r5 = |a: int, b: int| r4(a, b) || a == gcx - gx && b == gcy - gy && in_frame(a, b, w, h);
        proof {
            lemma_painted_union(start, w, bpp, r4, |a: int, b: int| a == gcx - gx && b == gcy - gy && in_frame(a, b, w, h), r5, color);
        }
        self.plot(cx - y, cy - x, color);
        let ghost r6 = |a: int, b: int| r5(a, b) || a == gcx - gy && b == gcy - gx && in_frame(a, b, w, h);
        proof {
            lemma_painted_union(start, w, bpp, r5, |a: int, b: int| a == gcx - gy && b == gcy - gx && in_frame(a, b, w, h), r6, color);
        }
        self.plot(cx + y, cy - x, color);
        let ghost r7 = |a: int, b: int| r6(a, b) || a == gcx + gy && b == gcy - gx && in_frame(a, b, w, h);
        proof {
            lemma_painted_union(start, w, bpp, r6, |a: int, b: int| a == gcx + gy && b == gcy - gx && in_frame(a, b, w, h), r7, color);
        }
        self.plot(cx + x, cy - y, color);
        let ghost r8 = |a: int, b: int| r7(a, b) || a == gcx + gx && b == gcy - gy && in_frame(a, b, w, h);
        proof {
            lemma_painted_union(start, w, bpp, r7, |a: int, b: int| a == gcx + gx && b == gcy - gy && in_frame(a, b, w, h), r8, color);
            lemma_painted_same(
                start,
                w,
                bpp,
                r8,
                |a: int, b: int| octant_point(gcx, gcy, gx, gy, a, b) && in_frame(a, b, w, h),
                color,
            );
        }
    }

    /// The outline of the circle of radius `radius` around `(cx, cy)`, by the midpoint
    /// walk; points outside the frame are left out.
    fn draw_circle_outline(&mut self, cx: usize, cy: usize, radius: usize, color: (u8, u8, u8))
        requires
            old(self).wf(),
            cx + radius <= isize::MAX,
            cy + radius <= isize::MAX,
            2 * radius <= isize::MAX,
        ensures
            final(self).wf(),
            final(self).same_frame(old(self)),
            final(self).buffer@ == old(self).painted(
                |a: int, b: int|
                    on_circle(a, b, cx as int, cy as int, radius as int) && in_frame(
                        a,
                        b,
                        old(self).width as int,
                        old(self).height as int,
                    ),
                color,
            ),
    {
        let ghost w = self.width as int;
        let ghost h = self.height as int;
        let ghost bpp = self.bytes_per_pixel as int;
        let ghost start = self.buffer@;
        let ghost r = radius as int;
        let cxi = cx as isize;
        let cyi = cy as isize;
        let mut x = radius as isize;
        let mut y: isize = 0;
        let mut err: i128 = 0;
        let ghost mut done = |a: int, b: int| false;
        proof {
            lemma_painted_none(start, w, bpp, color);
            lemma_painted_same(start, w, bpp, |a: int, b: int| false, |a: int, b: int| done(a, b) && in_frame(a, b, w, h), color);
            assert((x * x + y * y - r * r + 2 * y + 2 * (r - x)) == 0) by (nonlinear_arith)
                requires
                    x == r,
                    y == 0,
            ;
        }
        while x >= y
            invariant
                self.wf(),
                self.same_frame(old(self)),
                w == self.width,
                h == self.height,
                bpp == self.bytes_per_pixel,
                r == radius,
                cxi == cx,
                cyi == cy,
                cx + radius <= isize::MAX,
                cy + radius <= isize::MAX,
                2 * radius <= isize::MAX,
                0 <= y,
                x <= r,
                y <= x + 2,
                err == x * x + y * y - r * r + 2 * y + 2 * (r - x),
                forall|a: int, b: int|
                    #![trigger on_circle(a, b, cx as int, cy as int, r)]
                    on_circle(a, b, cx as int, cy as int, r) == (done(a, b) || outline_from(
                        cx as int,
                        cy as int,
                        x as int,
                        y as int,
                        err as int,
                        a,
                        b,
                    )),
                self.buffer@ == painted(start, w, bpp, |a: int, b: int| done(a, b) && in_frame(a, b, w, h), color),
            decreases x - y + 2,
        {
            self.plot_octants(cxi, cyi, x, y, color);
            let ghost old_done = done;
            proof {
                done = |a: int, b: int| old_done(a, b) || octant_point(cx as int, cy as int, x as int, y as int, a, b);
                lemma_painted_union(
                    start,
                    w,
                    bpp,
                    |a: int, b: int| old_done(a, b) && in_frame(a, b, w, h),
                    |a: int, b: int| octant_point(cx as int, cy as int, x as int, y as int, a, b) && in_frame(a, b, w, h),
                    |a: int, b: int| done(a, b) && in_frame(a, b, w, h),
                    color,
                );
            }
            let ghost (gx, gy, ge) = (x as int, y as int, err as int);
            proof {
                assert(0 <= y <= x <= r);
                assert(x * x <= r * r && y * y <= r * r) by (nonlinear_arith)
                    requires
                        0 <= y <= x <= r,
                ;
                assert(r * r <= 0x1000_0000_0000_0000_0000_0000_0000_0000) by (nonlinear_arith)
                    requires
                        0 <= r <= 0x4000_0000_0000_0000,
                ;
                assert(-(r * r) <= ge <= 2 * (r * r) + 4 * r) by (nonlinear_arith)
                    requires
                        ge == gx * gx + gy * gy - r * r + 2 * gy + 2 * (r - gx),
                        0 <= gy <= gx <= r,
                        gx * gx <= r * r,
                        gy * gy <= r * r,
                ;
            }
            y += 1;
            err += 1 + 2 * (y as i128);
            if 2 * (err - x as i128) + 1 > 0 {
                x -= 1;
                err += 1 - 2 * (x as i128);
            }
            proof {
                assert(err == x * x + y * y - r * r + 2 * y + 2 * (r - x)) by (nonlinear_arith)
                    requires
                        ge == gx * gx + gy * gy - r * r + 2 * gy + 2 * (r - gx),
                        y == gy + 1,
                        (x == gx && err == ge + 1 + 2 * y) || (x == gx - 1 && err == ge + 1 + 2 * y + 1
                            - 2 * x),
                ;
                assert forall|a: int, b: int|
                    #![trigger on_circle(a, b, cx as int, cy as int, r)]
                    on_circle(a, b, cx as int, cy as int, r) == (done(a, b) || outline_from(
                        cx as int,
                        cy as int,
                        x as int,
                        y as int,
                        err as int,
                        a,
                        b,
                    )) by {
                    assert(outline_from(cx as int, cy as int, gx, gy, ge, a, b) == (octant_point(
                        cx as int,
                        cy as int,
                        gx,
                        gy,
                        a,
                        b,
                    ) || outline_from(cx as int, cy as int, x as int, y as int, err as int, a, b)));
                }
            }
        }
        proof {
            assert forall|a: int, b: int| !outline_from(cx as int, cy as int, x as int, y as int, err as int, a, b) by {}
            lemma_painted_same(
                start,
                w,
                bpp,
                |a: int, b: int| done(a, b) && in_frame(a, b, w, h),
                |a: int, b: int| on_circle(a, b, cx as int, cy as int, r) && in_frame(a, b, w, h),
                color,
            );
        }
    }

    /// Paints the pixels of row `y` that lie in the disc of radius `r` around
    /// `(cx, cy)`; the disc lies in the frame.
    fn paint_disc_row(&mut self, cx: usize, cy: usize, r: usize, y: usize, color: (u8, u8, u8))
        requires
            old(self).wf(),
            r <= cx,
            r <= cy,
            cx + r < old(self).width,
            cy + r < old(self).height,
            cy - r <= y <= cy + r,
        ensures
            final(self).wf(),
            final(self).same_frame(old(self)),
            final(self).buffer@ == old(self).painted(
                |a: int, b: int| b == y && in_disc(a, b, cx as int, cy as int, r as int),
                color,
            ),
    {
        let ghost w = self.width as int;
        let ghost h = self.height as int;
        let ghost bpp = self.bytes_per_pixel as int;
        let ghost start = self.buffer@;
        let ghost (gcx, gcy, gr) = (cx as int, cy as int, r as int);
        proof {
            assert(w * h <= self.buffer@.len()) by (nonlinear_arith)
                requires
                    3 <= bpp,
                    w * bpp <= self.line_byte_length,
                    self.buffer@.len() == self.line_byte_length * h,
                    0 <= w,
                    0 <= h,
            ;
            assert(2 * (gr * gr) < w * h) by (nonlinear_arith)
                requires
                    2 * gr < w,
                    gr < h,
                    0 <= gr,
            ;
        }
        let len = self.buffer.len();
        let dy = if y >= cy {
            y - cy
        } else {
            cy - y
        };
        proof {
            assert(dy * dy <= gr * gr) by (nonlinear_arith)
                requires
                    0 <= dy <= gr,
            ;
        }
        let rr = r * r;
        let dyy = dy * dy;
        proof {
            lemma_painted_none(start, w, bpp, color);
            lemma_painted_same(
                start,
                w,
                bpp,
                |a: int, b: int| false,
                |a: int, b: int| b == y && gcx - gr <= a < gcx - gr && in_disc(a, b, gcx, gcy, gr),
                color,
            );
        }
        let mut x = cx - r;
        while x <= cx + r
            invariant
                self.wf(),
                self.same_frame(old(self)),
                w == self.width,
                bpp == self.bytes_per_pixel,
                len == self.buffer@.len(),
                2 * (gr * gr) < w * h,
                w * h <= len,
                gr == r,
                gcx == cx,
                gcy == cy,
                r <= cx,
                cx + r < self.width,
                y < self.height,
                rr == r * r,
                dyy == dy * dy,
                dyy <= rr,
                dy == if y >= cy { y - cy } else { cy - y },
                cx - r <= x <= cx + r + 1,
                self.buffer@ == painted(
                    start,
                    w,
                    bpp,
                    |a: int, b: int| b == y && gcx - gr <= a < x && in_disc(a, b, gcx, gcy, gr),
                    color,
                ),
            decreases cx + r + 1 - x,
        {
            let dx = if x >= cx {
                x - cx
            } else {
                cx - x
            };
            proof {
                assert(dx * dx <= gr * gr) by (nonlinear_arith)
                    requires
                        0 <= dx <= gr,
                ;
                assert((x - gcx) * (x - gcx) == dx * dx && (y - gcy) * (y - gcy) == dy * dy) by (nonlinear_arith)
                    requires
                        dx == x - gcx || dx == gcx - x,
                        dy == y - gcy || dy == gcy - y,
                ;
            }
            let inside = dx * dx + dyy <= rr;
            if inside {
                self.paint_pixel(x, y, color);
                proof {
                    lemma_painted_union(
                        start,
                        w,
                        bpp,
                        |a: int, b: int| b == y && gcx - gr <= a < x && in_disc(a, b, gcx, gcy, gr),
                        |a: int, b: int| a == x && b == y,
                        |a: int, b: int| b == y && gcx - gr <= a < x + 1 && in_disc(a, b, gcx, gcy, gr),
                        color,
                    );
                }
            } else {
                proof {
                    lemma_painted_same(
                        start,
                        w,
                        bpp,
                        |a: int, b: int| b == y && gcx - gr <= a < x && in_disc(a, b, gcx, gcy, gr),
                        |a: int, b: int| b == y && gcx - gr <= a < x + 1 && in_disc(a, b, gcx, gcy, gr),
                        color,
                    );
                }
            }
            x += 1;
        }
        proof {
            assert forall|a: int, b: int| #[trigger] in_disc(a, b, gcx, gcy, gr) implies gcx - gr <= a
                <= gcx + gr by {
                lemma_disc_bounds(a, b, gcx, gcy, gr);
            }
            lemma_painted_same(
                start,
                w,
                bpp,
                |a: int, b: int| b == y && gcx - gr <= a < x && in_disc(a, b, gcx, gcy, gr),
                |a: int, b: int| b == y && in_disc(a, b, gcx, gcy, gr),
                color,
            );
        }
    }

    /// Draws the circle of radius `radius` around `(cx, cy)`: the whole disc, which must
    /// lie in the frame, or the outline the midpoint walk gives, of which the points
    /// outside the frame are left out.
    pub fn draw_circle(&mut self, cx: usize, cy: usize, radius: usize, color: (u8, u8, u8), fill: bool)
        requires
            old(self).wf(),
            fill ==> radius <= cx && radius <= cy && cx + radius < old(self).width && cy + radius
                < old(self).height,
            !fill ==> cx + radius <= isize::MAX && cy + radius <= isize::MAX && 2 * radius
                <= isize::MAX,
        ensures
            final(self).wf(),
            final(self).same_frame(old(self)),
            final(self).buffer@ == if fill {
                old(self).painted(
                    |a: int, b: int| in_disc(a, b, cx as int, cy as int, radius as int),
                    color,
                )
            } else {
                old(self).painted(
                    |a: int, b: int|
                        on_circle(a, b, cx as int, cy as int, radius as int) && in_frame(
                            a,
                            b,
                            old(self).width as int,
                            old(self).height as int,
                        ),
                    color,
                )
            },
    {
        if !fill {
            self.draw_circle_outline(cx, cy, radius, color);
            return ;
        }
        let ghost w = self.width as int;
        let ghost bpp = self.bytes_per_pixel as int;
        let ghost start = self.buffer@;
        let ghost (gcx, gcy, gr) = (cx as int, cy as int, radius as int);
        proof {
            lemma_painted_none(start, w, bpp, color);
            lemma_painted_same(
                start,
                w,
                bpp,
                |a: int, b: int| false,
                |a: int, b: int| gcy - gr <= b < gcy - gr && in_disc(a, b, gcx, gcy, gr),
                color,
            );
        }
        let mut y = cy - radius;
        while y <= cy + radius
            invariant
                self.wf(),
                self.same_frame(old(self)),
                w == self.width,
                bpp == self.bytes_per_pixel,
                gcx == cx,
                gcy == cy,
                gr == radius,
                radius <= cx,
                radius <= cy,
                cx + radius < self.width,
                cy + radius < self.height,
                cy - radius <= y <= cy + radius + 1,
                self.buffer@ == painted(
                    start,
                    w,
                    bpp,
                    |a: int, b: int| gcy - gr <= b < y && in_disc(a, b, gcx, gcy, gr),
                    color,
                ),
            decreases cy + radius + 1 - y,
        {
            self.paint_disc_row(cx, cy, radius, y, color);
            proof {
                lemma_painted_union(
                    start,
                    w,
                    bpp,
                    |a: int, b: int| gcy - gr <= b < y && in_disc(a, b, gcx, gcy, gr),
                    |a: int, b: int| b == y && in_disc(a, b, gcx, gcy, gr),
                    |a: int, b: int| gcy - gr <= b < y + 1 && in_disc(a, b, gcx, gcy, gr),
                    color,
                );
            }
            y += 1;
        }
        proof {
            assert forall|a: int, b: int| #[trigger] in_disc(a, b, gcx, gcy, gr) implies gcy - gr <= b
                <= gcy + gr by {
                lemma_disc_bounds(a, b, gcx, gcy, gr);
            }
            lemma_painted_same(
                start,
                w,
                bpp,
                |a: int, b: int| gcy - gr <= b < y && in_disc(a, b, gcx, gcy, gr),
                |a: int, b: int| in_disc(a, b, gcx, gcy, gr),
                color,
            );
        }
    }

    /// Sets the pixels of row `row` from column `lo` to column `hi` that lie in the frame.
    fn plot_span(&mut self, lo: isize, hi: isize, row: isize, color: (u8, u8, u8))
        requires
            old(self).wf(),
            hi < isize::MAX,
        ensures
            final(self).wf(),
            final(self).same_frame(old(self)),
            final(self).buffer@ == old(self).painted(
                |a: int, b: int|
                    lo <= a <= hi && b == row && in_frame(
                        a,
                        b,
                        old(self).width as int,
                        old(self).height as int,
                    ),
                color,
            ),
    {
        let ghost w = self.width as int;
        let ghost h = self.height as int;
        let ghost bpp = self.bytes_per_pixel as int;
        let ghost start = self.buffer@;
        proof {
            lemma_painted_none(start, w, bpp, color);
            lemma_painted_same(
                start,
                w,
                bpp,
                |a: int, b: int| false,
                |a: int, b: int| lo <= a < lo && b == row && in_frame(a, b, w, h),
                color,
            );
        }
        if lo > hi {
            proof {
                lemma_painted_same(
                    start,
                    w,
                    bpp,
                    |a: int, b: int| lo <= a < lo && b == row && in_frame(a, b, w, h),
                    |a: int, b: int| lo <= a <= hi && b == row && in_frame(a, b, w, h),
                    color,
                );
            }
            return ;
        }
        let mut i = lo;
        while i <= hi
            invariant
                self.wf(),
                self.same_frame(old(self)),
                w == self.width,
                h == self.height,
                bpp == self.bytes_per_pixel,
                hi < isize::MAX,
                lo <= i <= hi + 1,
                self.buffer@ == painted(
                    start,
                    w,
                    bpp,
                    |a: int, b: int| lo <= a < i && b == row && in_frame(a, b, w, h),
                    color,
                ),
            decreases hi + 1 - i,
        {
            self.plot(i, row, color);
            proof {
                lemma_painted_union(
                    start,
                    w,
                    bpp,
                    |a: int, b: int| lo <= a < i && b == row && in_frame(a, b, w, h),
                    |a: int, b: int| a == i && b == row && in_frame(a, b, w, h),
                    |a: int, b: int| lo <= a < i + 1 && b == row && in_frame(a, b, w, h),
                    color,
                );
            }
            i += 1;
        }
        proof {
            lemma_painted_same(
                start,
                w,
                bpp,
                |a: int, b: int| lo <= a < i && b == row && in_frame(a, b, w, h),
                |a: int, b: int| lo <= a <= hi && b == row && in_frame(a, b, w, h),
                color,
            );
        }
    }

    /// Paints what step `(x, y)` of the quarter walk paints, where it lies in the frame.
    fn plot_quarter_step(
        &mut self,
        cx: isize,
        cy: isize,
        x: isize,
        y: isize,
        quarter: u8,
        fill: bool,
        color: (u8, u8, u8),
    )
        requires
            old(self).wf(),
            0 <= y <= x,
            (cx as int) + (x as int) < isize::MAX,
            (cy as int) + (x as int) < isize::MAX,
            cx as int - x as int >= isize::MIN,
            cy as int - x as int >= isize::MIN,
        ensures
            final(self).wf(),
            final(self).same_frame(old(self)),
            final(self).buffer@ == old(self).painted(
                |a: int, b: int|
                    quarter_points(cx as int, cy as int, x as int, y as int, quarter, fill, a, b)
                        && in_frame(a, b, old(self).width as int, old(self).height as int),
                color,
            ),
    {
        let ghost w = self.width as int;
        let ghost h = self.height as int;
        let ghost bpp = self.bytes_per_pixel as int;
        let ghost start = self.buffer@;
        let ghost (gx, gy, gcx, gcy) = (x as int, y as int, cx as int, cy as int);
        let ghost target = |a: int, b: int|
            quarter_points(gcx, gcy, gx, gy, quarter, fill, a, b) && in_frame(a, b, w, h);
        if quarter < 1 || quarter > 4 {
            proof {
                lemma_painted_none(start, w, bpp, color);
                lemma_painted_same(start, w, bpp, |a: int, b: int| false, target, color);
            }
            return ;
        }
        // the two spans or points of this step: first at row offset y, then at x
        let (lo1, hi1, row1, lo2, hi2, row2) = if quarter == 1 {
            (cx, cx + x, cy - y, cx, cx + y, cy - x)
        } else if quarter == 2 {
            (cx - x, cx, cy - y, cx - y, cx, cy - x)
        } else if quarter == 3 {
            (cx - x, cx, cy + y, cx - y, cx, cy + x)
        } else {
            (cx, cx + x, cy + y, cx, cx + y, cy + x)
        };
        if fill {
            self.plot_span(lo1, hi1, row1, color);
            self.plot_span(lo2, hi2, row2, color);
            proof {
                lemma_painted_union(
                    start,
                    w,
                    bpp,
                    |a: int, b: int| lo1 <= a <= hi1 && b == row1 && in_frame(a, b, w, h),
                    |a: int, b: int| lo2 <= a <= hi2 && b == row2 && in_frame(a, b, w, h),
                    target,
                    color,
                );
            }
        } else {
            let (first, second) = if quarter == 1 || quarter == 4 {
                (hi1, hi2)
            } else {
                (lo1, lo2)
            };
            self.plot(first, row1, color);
            self.plot(second, row2, color);
            proof {
                lemma_painted_union(
                    start,
                    w,
                    bpp,
                    |a: int, b: int| a == first && b == row1 && in_frame(a, b, w, h),
                    |a: int, b: int| a == second && b == row2 && in_frame(a, b, w, h),
                    target,
                    color,
                );
            }
        }
    }

    /// Draws quarter `quarter` of the circle of radius `radius` around `(cx, cy)` (1 upper
    /// right, 2 upper left, 3 lower left, 4 lower right; any other quarter draws
    /// nothing), filled or as an arc; points outside the frame are left out.
    pub fn draw_circle_quarter(
        &mut self,
        cx: usize,
        cy: usize,
        radius: usize,
        color: (u8, u8, u8),
        fill: bool,
        quarter: u8,
    )
        requires
            old(self).wf(),
            cx + radius < isize::MAX,
            cy + radius < isize::MAX,
            4 * radius <= isize::MAX,
        ensures
            final(self).wf(),
            final(self).same_frame(old(self)),
            final(self).buffer@ == old(self).painted(
                |a: int, b: int|
                    on_quarter(a, b, cx as int, cy as int, radius as int, quarter, fill)
                        && in_frame(a, b, old(self).width as int, old(self).height as int),
                color,
            ),
    {
        let ghost w = self.width as int;
        let ghost h = self.height as int;
        let ghost bpp = self.bytes_per_pixel as int;
        let ghost start = self.buffer@;
        let ghost r = radius as int;
        let ghost (gcx, gcy) = (cx as int, cy as int);
        let cxi = cx as isize;
        let cyi = cy as isize;
        let mut x = radius as isize;
        let mut y: isize = 0;
        let mut err: i128 = 1 - (x as i128);
        let ghost mut done = |a: int, b: int| false;
        proof {
            lemma_painted_none(start, w, bpp, color);
            lemma_painted_same(start, w, bpp, |a: int, b: int| false, |a: int, b: int| done(a, b) && in_frame(a, b, w, h), color);
            assert(err == x * x + y * y - r * r + 2 * y + 2 * (r - x) + 1 - r) by (nonlinear_arith)
                requires
                    x == r,
                    y == 0,
                    err == 1 - r,
            ;
        }
        while x >= y
            invariant
                self.wf(),
                self.same_frame(old(self)),
                w == self.width,
                h == self.height,
                bpp == self.bytes_per_pixel,
                r == radius,
                cxi == cx,
                cyi == cy,
                gcx == cx,
                gcy == cy,
                cx + radius < isize::MAX,
                cy + radius < isize::MAX,
                4 * radius <= isize::MAX,
                0 <= y,
                x <= r,
                y <= x + 2,
                err == x * x + y * y - r * r + 2 * y + 2 * (r - x) + 1 - r,
                forall|a: int, b: int|
                    #![trigger on_quarter(a, b, gcx, gcy, r, quarter, fill)]
                    on_quarter(a, b, gcx, gcy, r, quarter, fill) == (done(a, b) || quarter_from(
                        gcx,
                        gcy,
                        x as int,
                        y as int,
                        err as int,
                        quarter,
                        fill,
                        a,
                        b,
                    )),
                self.buffer@ == painted(start, w, bpp, |a: int, b: int| done(a, b) && in_frame(a, b, w, h), color),
            decreases x - y + 2,
        {
            self.plot_quarter_step(cxi, cyi, x, y, quarter, fill, color);
            let ghost old_done = done;
            proof {
                done = |a: int, b: int| old_done(a, b) || quarter_points(gcx, gcy, x as int, y as int, quarter, fill, a, b);
                lemma_painted_union(
                    start,
                    w,
                    bpp,
                    |a: int, b: int| old_done(a, b) && in_frame(a, b, w, h),
                    |a: int, b: int| quarter_points(gcx, gcy, x as int, y as int, quarter, fill, a, b) && in_frame(a, b, w, h),
                    |a: int, b: int| done(a, b) && in_frame(a, b, w, h),
                    color,
                );
            }
            let ghost (gx, gy, ge) = (x as int, y as int, err as int);
            proof {
                assert(x * x <= r * r && y * y <= r * r) by (nonlinear_arith)
                    requires
                        0 <= y <= x <= r,
                ;
                assert(r * r <= 0x0400_0000_0000_0000_0000_0000_0000_0000) by (nonlinear_arith)
                    requires
                        0 <= r <= 0x2000_0000_0000_0000,
                ;
                assert(-(r * r) - r <= ge <= 2 * (r * r) + 4 * r + 1) by (nonlinear_arith)
                    requires
                        ge == gx * gx + gy * gy - r * r + 2 * gy + 2 * (r - gx) + 1 - r,
                        0 <= gy <= gx <= r,
                        gx * gx <= r * r,
                        gy * gy <= r * r,
                ;
            }
            y += 1;
            if err < 0 {
                err += 2 * (y as i128) + 1;
            } else {
                x -= 1;
                err += 2 * ((y as i128) - (x as i128) + 1);
            }
            proof {
                assert(err == x * x + y * y - r * r + 2 * y + 2 * (r - x) + 1 - r) by (nonlinear_arith)
                    requires
                        ge == gx * gx + gy * gy - r * r + 2 * gy + 2 * (r - gx) + 1 - r,
                        y == gy + 1,
                        (ge < 0 && x == gx && err == ge + 2 * y + 1) || (ge >= 0 && x == gx - 1
                            && err == ge + 2 * (y - x + 1)),
                ;
                assert forall|a: int, b: int|
                    #![trigger on_quarter(a, b, gcx, gcy, r, quarter, fill)]
                    on_quarter(a, b, gcx, gcy, r, quarter, fill) == (done(a, b) || quarter_from(
                        gcx,
                        gcy,
                        x as int,
                        y as int,
                        err as int,
                        quarter,
                        fill,
                        a,
                        b,
                    )) by {
                    assert(quarter_from(gcx, gcy, gx, gy, ge, quarter, fill, a, b) == (
                    quarter_points(gcx, gcy, gx, gy, quarter, fill, a, b) || quarter_from(
                        gcx,
                        gcy,
                        x as int,
                        y as int,
                        err as int,
                        quarter,
                        fill,
                        a,
                        b,
                    )));
                }
            }
        }
        proof {
            assert forall|a: int, b: int|
                !quarter_from(gcx, gcy, x as int, y as int, err as int, quarter, fill, a, b) by {}
            lemma_painted_same(
                start,
                w,
                bpp,
                |a: int, b: int| done(a, b) && in_frame(a, b, w, h),
                |a: int, b: int| on_quarter(a, b, gcx, gcy, r, quarter, fill) && in_frame(a, b, w, h),
                color,
            );
        }
    }

    /// Draws the rectangle with corners `(x0, y0)` and `(x1, y1)`, in either order, with
    /// its corners rounded to quarter circles of radius `radius`: filled, or its outline.
    pub fn draw_rectangle_rounded(
        &mut self,
        x0: usize,
        y0: usize,
        x1: usize,
        y1: usize,
        radius: usize,
        color: (u8, u8, u8),
        fill: bool,
    )
        requires
            old(self).wf(),
            high(x0 as int, x1 as int) < old(self).width,
            high(y0 as int, y1 as int) < old(self).height,
            radius <= high(x0 as int, x1 as int),
            radius <= high(y0 as int, y1 as int),
            low(x0 as int, x1 as int) + radius < old(self).width,
            low(y0 as int, y1 as int) + radius < old(self).height,
            high(x0 as int, x1 as int) + 2 * radius < isize::MAX,
            high(y0 as int, y1 as int) + 2 * radius < isize::MAX,
            4 * radius <= isize::MAX,
        ensures
            final(self).wf(),
            final(self).same_frame(old(self)),
            ({
                let (lx, hx) = (low(x0 as int, x1 as int), high(x0 as int, x1 as int));
                let (ly, hy) = (low(y0 as int, y1 as int), high(y0 as int, y1 as int));
                let r = radius as int;
                final(self).buffer@ == old(self).painted(
                    |a: int, b: int|
                        rounded_sides(a, b, lx, ly, hx, hy, r, fill) || rounded_corners(
                            a,
                            b,
                            lx,
                            ly,
                            hx,
                            hy,
                            r,
                            fill,
                        ) && in_frame(a, b, old(self).width as int, old(self).height as int),
                    color,
                )
            }),
    {
        let ghost w = self.width as int;
        let ghost h = self.height as int;
        let ghost bpp = self.bytes_per_pixel as int;
        let ghost start = self.buffer@;
        let ghost r = radius as int;
        let (x0, x1) = if x0 < x1 {
            (x0, x1)
        } else {
            (x1, x0)
        };
        let (y0, y1) = if y0 < y1 {
            (y0, y1)
        } else {
            (y1, y0)
        };
        let ghost (lx, ly, hx, hy) = (x0 as int, y0 as int, x1 as int, y1 as int);
        let ghost sides = |a: int, b: int| rounded_sides(a, b, lx, ly, hx, hy, r, fill);
        if fill {
            self.draw_rectangle(x0, y0 + radius, x1, y1 - radius, color, true);
            self.draw_rectangle(x0 + radius, y0, x1 - radius, y1, color, true);
            proof {
                lemma_painted_union(
                    start,
                    w,
                    bpp,
                    |a: int, b: int| in_rectangle(a, b, lx, ly + r, hx, hy - r),
                    |a: int, b: int| in_rectangle(a, b, lx + r, ly, hx - r, hy),
                    sides,
                    color,
                );
            }
        } else {
            self.draw_rectangle(x0 + radius, y0, x1 - radius, y0, color, true);
            self.draw_rectangle(x0 + radius, y1, x1 - radius, y1, color, true);
            let ghost s2 = |a: int, b: int|
                in_rectangle(a, b, lx + r, ly, hx - r, ly) || in_rectangle(a, b, lx + r, hy, hx - r, hy);
            proof {
                lemma_painted_union(
                    start,
                    w,
                    bpp,
                    |a: int, b: int| in_rectangle(a, b, lx + r, ly, hx - r, ly),
                    |a: int, b: int| in_rectangle(a, b, lx + r, hy, hx - r, hy),
                    s2,
                    color,
                );
            }
            self.draw_rectangle(x0, y0 + radius, x0, y1 - radius, color, true);
            let ghost s3 = |a: int, b: int| s2(a, b) || in_rectangle(a, b, lx, ly + r, lx, hy - r);
            proof {
                lemma_painted_union(
                    start,
                    w,
                    bpp,
                    s2,
                    |a: int, b: int| in_rectangle(a, b, lx, ly + r, lx, hy - r),
                    s3,
                    color,
                );
            }
            self.draw_rectangle(x1, y0 + radius, x1, y1 - radius, color, true);
            proof {
                lemma_painted_union(
                    start,
                    w,
                    bpp,
                    s3,
                    |a: int, b: int| in_rectangle(a, b, hx, ly + r, hx, hy - r),
                    sides,
                    color,
                );
            }
        }
        self.draw_circle_quarter(x0 + radius, y0 + radius, radius, color, fill, 2);
        let ghost c1 = |a: int, b: int| sides(a, b) || on_quarter(a, b, lx + r, ly + r, r, 2, fill) && in_frame(a, b, w, h);
        proof {
            lemma_painted_union(start, w, bpp, sides, |a: int, b: int| on_quarter(a, b, lx + r, ly + r, r, 2, fill) && in_frame(a, b, w, h), c1, color);
        }
        self.draw_circle_quarter(x1 - radius, y0 + radius, radius, color, fill, 1);
        let ghost c2 = |a: int, b: int| c1(a, b) || on_quarter(a, b, hx - r, ly + r, r, 1, fill) && in_frame(a, b, w, h);
        proof {
            lemma_painted_union(start, w, bpp, c1, |a: int, b: int| on_quarter(a, b, hx - r, ly + r, r, 1, fill) && in_frame(a, b, w, h), c2, color);
        }
        self.draw_circle_quarter(x1 - radius, y1 - radius, radius, color, fill, 4);
        let ghost c3 = |a: int, b: int| c2(a, b) || on_quarter(a, b, hx - r, hy - r, r, 4, fill) && in_frame(a, b, w, h);
        proof {
            lemma_painted_union(start, w, bpp, c2, |a: int, b: int| on_quarter(a, b, hx - r, hy - r, r, 4, fill) && in_frame(a, b, w, h), c3, color);
        }
        self.draw_circle_quarter(x0 + radius, y1 - radius, radius, color, fill, 3);
        proof {
            lemma_painted_union(
                start,
                w,
                bpp,
                c3,
                |a: int, b: int| on_quarter(a, b, lx + r, hy - r, r, 3, fill) && in_frame(a, b, w, h),
                |a: int, b: int|
                    rounded_sides(a, b, lx, ly, hx, hy, r, fill) || rounded_corners(a, b, lx, ly, hx, hy, r, fill)
                        && in_frame(a, b, w, h),
                color,
            );
        }
    }

    /// Draws the line from `(x0, y0)` to `(x1, y1)` by Bresenham's walk; both ends must
    /// lie in the frame.
    pub fn draw_line(&mut self, x0: usize, y0: usize, x1: usize, y1: usize, color: (u8, u8, u8))
        requires
            old(self).wf(),
            x0 < old(self).width,
            x1 < old(self).width,
            y0 < old(self).height,
            y1 < old(self).height,
        ensures
            final(self).wf(),
            final(self).same_frame(old(self)),
            final(self).buffer@ == old(self).painted(
                |a: int, b: int| on_line(a, b, x0 as int, y0 as int, x1 as int, y1 as int),
                color,
            ),
    {
        let ghost w = self.width as int;
        let ghost bpp = self.bytes_per_pixel as int;
        let ghost start = self.buffer@;
        let len = self.buffer.len();
        proof {
            assert(self.width * 3 <= self.line_byte_length * self.height) by (nonlinear_arith)
                requires
                    3 <= self.bytes_per_pixel,
                    self.width * self.bytes_per_pixel <= self.line_byte_length,
                    1 <= self.height,
                    0 <= self.line_byte_length,
            ;
            assert(self.height * 3 <= self.line_byte_length * self.height) by (nonlinear_arith)
                requires
                    3 <= self.bytes_per_pixel,
                    self.width * self.bytes_per_pixel <= self.line_byte_length,
                    1 <= self.width,
                    0 <= self.height,
            ;
        }
        let ghost (gx0, gy0, gx1, gy1) = (x0 as int, y0 as int, x1 as int, y1 as int);
        let bx0 = x0 as i128;
        let by0 = y0 as i128;
        let bx1 = x1 as i128;
        let by1 = y1 as i128;
        let dx: i128 = if bx1 > bx0 {
            bx1 - bx0
        } else {
            bx0 - bx1
        };
        let ady: i128 = if by1 > by0 {
            by1 - by0
        } else {
            by0 - by1
        };
        let dy: i128 = -ady;
        let sx: i128 = if x0 < x1 {
            1
        } else {
            -1
        };
        let sy: i128 = if y0 < y1 {
            1
        } else {
            -1
        };
        let mut err: i128 = dx + dy;
        let mut x: i128 = bx0;
        let mut y: i128 = by0;
        let ghost mut gi: int = 0;
        let ghost mut gj: int = 0;
        self.paint_pixel(x0, y0, color);
        let ghost mut done = |a: int, b: int| a == gx0 && b == gy0;
        proof {
            assert(dx <= 0x7fff_ffff_ffff_ffff && ady <= 0x7fff_ffff_ffff_ffff);
            assert(dx * (1 + gj) - ady * (1 + gi) == dx - ady) by (nonlinear_arith)
                requires
                    gi == 0,
                    gj == 0,
            ;
        }
        while !(x == bx1 && y == by1)
            invariant
                self.wf(),
                self.same_frame(old(self)),
                w == self.width,
                bpp == self.bytes_per_pixel,
                x0 < self.width,
                x1 < self.width,
                y0 < self.height,
                y1 < self.height,
                bx0 == x0,
                by0 == y0,
                bx1 == x1,
                by1 == y1,
                gx0 == x0,
                gy0 == y0,
                gx1 == x1,
                gy1 == y1,
                dx == abs(gx1 - gx0),
                ady == abs(gy1 - gy0),
                dy == -ady,
                dx <= 0x7fff_ffff_ffff_ffff,
                ady <= 0x7fff_ffff_ffff_ffff,
                sx == (if x0 < x1 { 1int } else { -1int }),
                sy == (if y0 < y1 { 1int } else { -1int }),
                0 <= gi <= dx,
                0 <= gj <= ady,
                x == (if x0 < x1 { gx0 + gi } else { gx0 - gi }),
                y == (if y0 < y1 { gy0 + gj } else { gy0 - gj }),
                err == dx * (1 + gj) - ady * (1 + gi),
                forall|a: int, b: int|
                    #![trigger on_line(a, b, gx0, gy0, gx1, gy1)]
                    on_line(a, b, gx0, gy0, gx1, gy1) == (done(a, b) || line_from(
                        x as int,
                        y as int,
                        err as int,
                        gx1,
                        gy1,
                        dx as int,
                        dy as int,
                        sx as int,
                        sy as int,
                        a,
                        b,
                    )),
                done(x as int, y as int),
                self.buffer@ == painted(start, w, bpp, done, color),
            decreases (dx - gi) + (ady - gj),
        {
            let ghost (px, py, pe) = (x as int, y as int, err as int);
            proof {
                assert(0 <= dx * (1 + gj) <= dx * (1 + ady)) by (nonlinear_arith)
                    requires
                        0 <= dx,
                        0 <= gj <= ady,
                ;
                assert(0 <= ady * (1 + gi) <= ady * (1 + dx)) by (nonlinear_arith)
                    requires
                        0 <= ady,
                        0 <= gi <= dx,
                ;
                assert(dx * (1 + ady) <= 0x3fff_ffff_ffff_ffff_ffff_ffff_ffff_ffff) by (nonlinear_arith)
                    requires
                        0 <= dx <= 0x7fff_ffff_ffff_ffff,
                        0 <= ady <= 0x7fff_ffff_ffff_ffff,
                ;
                assert(ady * (1 + dx) <= 0x3fff_ffff_ffff_ffff_ffff_ffff_ffff_ffff) by (nonlinear_arith)
                    requires
                        0 <= dx <= 0x7fff_ffff_ffff_ffff,
                        0 <= ady <= 0x7fff_ffff_ffff_ffff,
                ;
                // at the end column only rows remain, and at the end row only columns
                if gi == dx && gj < ady {
                    assert(dx * (1 + gj) <= dx * ady) by (nonlinear_arith)
                        requires
                            0 <= dx,
                            1 + gj <= ady,
                    ;
                    assert(ady * (1 + gi) == ady + ady * dx) by (nonlinear_arith)
                        requires
                            gi == dx,
                    ;
                    assert(dx * ady == ady * dx) by (nonlinear_arith);
                    assert(err <= dy);
                }
                if gj == ady && gi < dx {
                    assert(ady * (1 + gi) <= ady * dx) by (nonlinear_arith)
                        requires
                            0 <= ady,
                            1 + gi <= dx,
                    ;
                    assert(dx * (1 + gj) == dx + dx * ady) by (nonlinear_arith)
                        requires
                            gj == ady,
                    ;
                    assert(dx * ady == ady * dx) by (nonlinear_arith);
                    assert(err >= dx);
                }
                if gi == dx && gj == ady {
                    assert(x == bx1 && y == by1);
                }
            }
            let e2 = 2 * err;
            let move_x = e2 >= dy;
            let move_y = e2 <= dx;
            if move_x {
                err += dy;
                x += sx;
                proof {
                    gi = gi + 1;
                }
            }
            if move_y {
                err += dx;
                y += sy;
                proof {
                    gj = gj + 1;
                }
            }
            proof {
                assert(err == dx * (1 + gj) - ady * (1 + gi)) by (nonlinear_arith)
                    requires
                        pe == dx * (1 + (if move_y { gj - 1 } else { gj })) - ady * (1 + (if move_x {
                            gi - 1
                        } else {
                            gi
                        })),
                        err == pe + (if move_x { dy } else { 0 }) + (if move_y { dx } else { 0 }),
                        dy == -ady,
                ;
                assert(abs(gx1 - x) == dx - gi);
                assert(abs(gy1 - y) == ady - gj);
                assert(abs(gx1 - px) + abs(gy1 - py) == (dx - (if move_x { gi - 1 } else { gi })) + (
                ady - (if move_y { gj - 1 } else { gj })));
            }
            proof {
                assert(0 <= x < w && 0 <= y < self.height);
            }
            self.paint_pixel(x as usize, y as usize, color);
            let ghost old_done = done;
            proof {
                done = |a: int, b: int| old_done(a, b) || a == x as int && b == y as int;
                lemma_painted_union(start, w, bpp, old_done, |a: int, b: int| a == x as int && b == y as int, done, color);
                assert forall|a: int, b: int|
                    #![trigger on_line(a, b, gx0, gy0, gx1, gy1)]
                    on_line(a, b, gx0, gy0, gx1, gy1) == (done(a, b) || line_from(
                        x as int,
                        y as int,
                        err as int,
                        gx1,
                        gy1,
                        dx as int,
                        dy as int,
                        sx as int,
                        sy as int,
                        a,
                        b,
                    )) by {
                    assert(line_from(px, py, pe, gx1, gy1, dx as int, dy as int, sx as int, sy as int, a, b) == (
                    (a == px && b == py) || line_from(
                        x as int,
                        y as int,
                        err as int,
                        gx1,
                        gy1,
                        dx as int,
                        dy as int,
                        sx as int,
                        sy as int,
                        a,
                        b,
                    )));
                }
            }
        }
        proof {
            assert forall|a: int, b: int| #[trigger] on_line(a, b, gx0, gy0, gx1, gy1) == done(a, b) by {
                if line_from(x as int, y as int, err as int, gx1, gy1, dx as int, dy as int, sx as int, sy as int, a, b) {
                    assert(a == x && b == y);
                }
            }
            lemma_painted_same(
                start,
                w,
                bpp,
                done,
                |a: int, b: int| on_line(a, b, gx0, gy0, gx1, gy1),
                color,
            );
        }
    }

    /// Draws glyph `g`, `width` columns wide and `height` rows high, from `(ox, oy)`,
    /// each set pixel as a `scale` by `scale` square.
    fn draw_glyph(
        &mut self,
        g: &Vec<u8>,
        width: usize,
        height: usize,
        ox: usize,
        oy: usize,
        scale: usize,
        color: (u8, u8, u8),
    )
        requires
            old(self).wf(),
            width * height <= g@.len(),
            ox + scale * width <= old(self).width,
            oy + scale * height <= old(self).height,
        ensures
            final(self).wf(),
            final(self).same_frame(old(self)),
            final(self).buffer@ == old(self).painted(
                |a: int, b: int|
                    on_glyph(a, b, g@, width as int, height as int, ox as int, oy as int, scale as int),
                color,
            ),
    {
        let ghost w = self.width as int;
        let ghost bpp = self.bytes_per_pixel as int;
        let ghost start = self.buffer@;
        let ghost (gw, gh, gox, goy, gs) = (width as int, height as int, ox as int, oy as int, scale as int);
        proof {
            lemma_painted_none(start, w, bpp, color);
            lemma_painted_same(
                start,
                w,
                bpp,
                |a: int, b: int| false,
                |a: int, b: int| on_glyph_upto(a, b, g@, gw, gh, gox, goy, gs, 0, 0),
                color,
            );
        }
        let glen = g.len();
        let mut row: usize = 0;
        while row < height
            invariant
                self.wf(),
                self.same_frame(old(self)),
                w == self.width,
                bpp == self.bytes_per_pixel,
                gw == width,
                gh == height,
                gox == ox,
                goy == oy,
                gs == scale,
                width * height <= g@.len(),
                glen == g@.len(),
                ox + scale * width <= self.width,
                oy + scale * height <= self.height,
                row <= height,
                self.buffer@ == painted(
                    start,
                    w,
                    bpp,
                    |a: int, b: int| on_glyph_upto(a, b, g@, gw, gh, gox, goy, gs, row as int, 0),
                    color,
                ),
            decreases height - row,
        {
            let mut col: usize = 0;
            while col < width
                invariant
                    self.wf(),
                    self.same_frame(old(self)),
                    w == self.width,
                    bpp == self.bytes_per_pixel,
                    gw == width,
                    gh == height,
                    gox == ox,
                    goy == oy,
                    gs == scale,
                    width * height <= g@.len(),
                    glen == g@.len(),
                    ox + scale * width <= self.width,
                    oy + scale * height <= self.height,
                    row < height,
                    col <= width,
                    self.buffer@ == painted(
                        start,
                        w,
                        bpp,
                        |a: int, b: int| on_glyph_upto(a, b, g@, gw, gh, gox, goy, gs, row as int, col as int),
                        color,
                    ),
                decreases width - col,
            {
                proof {
                    assert(row * width + col < width * height) by (nonlinear_arith)
                        requires
                            row < height,
                            col < width,
                    ;
                    assert(scale * col + scale <= scale * width) by (nonlinear_arith)
                        requires
                            col < width,
                    ;
                    assert(scale * row + scale <= scale * height) by (nonlinear_arith)
                        requires
                            row < height,
                    ;
                }
                let lit = g[row * width + col] == 1;
                let ghost before = |a: int, b: int| on_glyph_upto(a, b, g@, gw, gh, gox, goy, gs, row as int, col as int);
                let ghost after = |a: int, b: int| on_glyph_upto(a, b, g@, gw, gh, gox, goy, gs, row as int, col as int + 1);
                if lit && scale > 0 {
                    let ax = ox + scale * col;
                    let ay = oy + scale * row;
                    self.draw_rectangle(ax, ay, ax + scale - 1, ay + scale - 1, color, true);
                    proof {
                        let cell = |a: int, b: int| in_rectangle(a, b, ax as int, ay as int, ax + scale - 1, ay + scale - 1);
                        assert forall|a: int, b: int| #[trigger] after(a, b) == (before(a, b) || cell(a, b)) by {
                            if cell(a, b) {
                                assert(gox + col * gs == ax && goy + row * gs == ay) by (nonlinear_arith)
                                    requires
                                        ax == gox + gs * col,
                                        ay == goy + gs * row,
                                ;
                                assert(in_cell(a, b, gox, goy, col as int, row as int, gs));
                            }
                            if after(a, b) && !before(a, b) {
                                let (c2, r2) = choose|c2: int, r2: int|
                                    glyph_pixel(g@, gw, gh, c2, r2) && (r2 < row || r2 == row && c2 < col + 1)
                                        && #[trigger] in_cell(a, b, gox, goy, c2, r2, gs);
                                assert(r2 == row && c2 == col);
                                assert(gox + col * gs == ax && goy + row * gs == ay) by (nonlinear_arith)
                                    requires
                                        ax == gox + gs * col,
                                        ay == goy + gs * row,
                                ;
                                assert(cell(a, b));
                            }
                        }
                        lemma_painted_union(start, w, bpp, before, cell, after, color);
                    }
                } else {
                    proof {
                        assert forall|a: int, b: int| #[trigger] after(a, b) == before(a, b) by {
                            if after(a, b) && !before(a, b) {
                                let (c2, r2) = choose|c2: int, r2: int|
                                    glyph_pixel(g@, gw, gh, c2, r2) && (r2 < row || r2 == row && c2 < col + 1)
                                        && #[trigger] in_cell(a, b, gox, goy, c2, r2, gs);
                                assert(r2 == row && c2 == col);
                                if scale == 0 {
                                    assert(!in_cell(a, b, gox, goy, c2, r2, gs)) by (nonlinear_arith)
                                        requires
                                            gs == 0,
                                    ;
                                }
                            }
                        }
                        lemma_painted_same(start, w, bpp, before, after, color);
                    }
                }
                col += 1;
            }
            proof {
                lemma_painted_same(
                    start,
                    w,
                    bpp,
                    |a: int, b: int| on_glyph_upto(a, b, g@, gw, gh, gox, goy, gs, row as int, gw),
                    |a: int, b: int| on_glyph_upto(a, b, g@, gw, gh, gox, goy, gs, row as int + 1, 0),
                    color,
                );
            }
            row += 1;
        }
        proof {
            lemma_painted_same(
                start,
                w,
                bpp,
                |a: int, b: int| on_glyph_upto(a, b, g@, gw, gh, gox, goy, gs, gh, 0),
                |a: int, b: int| on_glyph(a, b, g@, gw, gh, gox, goy, gs),
                color,
            );
        }
    }

    /// Writes `text` in `font` from `(x, y)`: each character's glyph, its pixels drawn as
    /// `scale` by `scale` squares, then `spacing` columns before the next.
    pub fn text(
        &mut self,
        text: &str,
        font: &Font,
        x: usize,
        y: usize,
        scale: usize,
        spacing: usize,
        color: (u8, u8, u8),
    )
        requires
            old(self).wf(),
            0 < font.height,
            font.covers(text@),
            y + scale * font.height <= old(self).height,
            forall|k: int|
                0 <= k < text@.len() ==> x + font.advance(text@, k, scale as int, spacing as int)
                    + scale * font.width(#[trigger] text@[k]) <= old(self).width,
            x + font.advance(text@, text@.len() as int, scale as int, spacing as int) <= usize::MAX,
        ensures
            final(self).wf(),
            final(self).same_frame(old(self)),
            final(self).buffer@ == old(self).painted(
                |a: int, b: int|
                    on_text_upto(
                        a,
                        b,
                        text@,
                        font,
                        x as int,
                        y as int,
                        scale as int,
                        spacing as int,
                        text@.len() as int,
                    ),
                color,
            ),
    {
        let ghost w = self.width as int;
        let ghost bpp = self.bytes_per_pixel as int;
        let ghost start = self.buffer@;
        let ghost (gx, gy, gs, gsp) = (x as int, y as int, scale as int, spacing as int);
        let n = text.unicode_len();
        let mut cx = x;
        let mut k: usize = 0;
        proof {
            lemma_painted_none(start, w, bpp, color);
            lemma_painted_same(
                start,
                w,
                bpp,
                |a: int, b: int| false,
                |a: int, b: int| on_text_upto(a, b, text@, font, gx, gy, gs, gsp, 0),
                color,
            );
        }
        while k < n
            invariant
                self.wf(),
                self.same_frame(old(self)),
                w == self.width,
                bpp == self.bytes_per_pixel,
                gx == x,
                gy == y,
                gs == scale,
                gsp == spacing,
                n == text@.len(),
                k <= n,
                0 < font.height,
                font.covers(text@),
                y + scale * font.height <= self.height,
                forall|j: int|
                    0 <= j < text@.len() ==> x + font.advance(text@, j, scale as int, spacing as int)
                        + scale * font.width(#[trigger] text@[j]) <= self.width,
                x + font.advance(text@, text@.len() as int, scale as int, spacing as int) <= usize::MAX,
                cx == x + font.advance(text@, k as int, scale as int, spacing as int),
                self.buffer@ == painted(
                    start,
                    w,
                    bpp,
                    |a: int, b: int| on_text_upto(a, b, text@, font, gx, gy, gs, gsp, k as int),
                    color,
                ),
            decreases n - k,
        {
            let c = text.get_char(k);
            assert(32 <= (text@[k as int] as int) < 32 + font.glyphs@.len());
            let gi = (c as u32 as usize) - 32;
            let g = &font.glyphs[gi];
            let cw = g.len() / font.height;
            proof {
                assert(font.glyph(c) == g@);
                assert(cw * font.height <= g@.len()) by (nonlinear_arith)
                    requires
                        cw == (g@.len() as int) / (font.height as int),
                        0 < font.height,
                ;
                lemma_advance_mono(font, text@, k as int, text@.len() as int, gs, gsp);
            }
            self.draw_glyph(g, cw, font.height, cx, y, scale, color);
            proof {
                lemma_painted_union(
                    start,
                    w,
                    bpp,
                    |a: int, b: int| on_text_upto(a, b, text@, font, gx, gy, gs, gsp, k as int),
                    |a: int, b: int| on_glyph(a, b, g@, cw as int, font.height as int, cx as int, gy, gs),
                    |a: int, b: int| on_text_upto(a, b, text@, font, gx, gy, gs, gsp, k as int + 1),
                    color,
                );
            }
            proof {
                assert(font.width(text@[k as int]) == cw);
                assert(font.advance(text@, k as int + 1, gs, gsp) == font.advance(text@, k as int, gs, gsp)
                    + gs * cw + gsp);
                lemma_advance_mono(font, text@, k as int + 1, text@.len() as int, gs, gsp);
            }
            cx = cx + scale * cw + spacing;
            k += 1;
        }
    }

    /// Draws an image of `img_width` by `img_height` pixels, stored as red, green, blue
    /// and alpha bytes row after row, with its top left corner at `(start_x, start_y)`:
    /// pixels outside the frame and wholly transparent ones are left out.
    pub fn image(
        &mut self,
        rgba: &Vec<u8>,
        img_width: usize,
        img_height: usize,
        start_x: usize,
        start_y: usize,
    )
        requires
            rgba@.len() == 4 * img_width * img_height,
            start_x + img_width <= usize::MAX,
            start_y + img_height <= usize::MAX,
            4 * old(self).width * old(self).height <= usize::MAX,
        ensures
            final(self).same_frame(old(self)),
            final(self).buffer@ == blitted_upto(
                old(self).buffer@,
                old(self).width as int,
                old(self).height as int,
                rgba@,
                img_width as int,
                img_height as int,
                start_x as int,
                start_y as int,
                img_height as int,
                0,
            ),
    {
        let ghost start = self.buffer@;
        let ghost (w, h, iw, ih, sx, sy) = (
            self.width as int,
            self.height as int,
            img_width as int,
            img_height as int,
            start_x as int,
            start_y as int,
        );
        let len = self.buffer.len();
        let rlen = rgba.len();
        proof {
            assert(start =~= blitted_upto(start, w, h, rgba@, iw, ih, sx, sy, 0, 0));
        }
        let mut y: usize = 0;
        while y < img_height
            invariant
                self.same_frame(old(self)),
                w == self.width,
                h == self.height,
                iw == img_width,
                ih == img_height,
                sx == start_x,
                sy == start_y,
                len == self.buffer@.len(),
                len == start.len(),
                rlen == rgba@.len(),
                rgba@.len() == 4 * img_width * img_height,
                start_x + img_width <= usize::MAX,
                start_y + img_height <= usize::MAX,
                4 * self.width * self.height <= usize::MAX,
                y <= img_height,
                self.buffer@ == blitted_upto(start, w, h, rgba@, iw, ih, sx, sy, y as int, 0),
            decreases img_height - y,
        {
            let mut x: usize = 0;
            while x < img_width
                invariant
                    self.same_frame(old(self)),
                    w == self.width,
                    h == self.height,
                    iw == img_width,
                    ih == img_height,
                    sx == start_x,
                    sy == start_y,
                    len == self.buffer@.len(),
                    len == start.len(),
                    rlen == rgba@.len(),
                    rgba@.len() == 4 * img_width * img_height,
                    start_x + img_width <= usize::MAX,
                    start_y + img_height <= usize::MAX,
                    4 * self.width * self.height <= usize::MAX,
                    y < img_height,
                    x <= img_width,
                    self.buffer@ == blitted_upto(start, w, h, rgba@, iw, ih, sx, sy, y as int, x as int),
                decreases img_width - x,
            {
                let ghost before = self.buffer@;
                let dst_x = start_x + x;
                let dst_y = start_y + y;
                if dst_x < self.width && dst_y < self.height {
                    proof {
                        assert((y * img_width + x) * 4 + 4 <= 4 * img_width * img_height) by (nonlinear_arith)
                            requires
                                x < img_width,
                                y < img_height,
                        ;
                        assert((dst_y * w + dst_x) * 4 + 4 <= 4 * w * h) by (nonlinear_arith)
                            requires
                                dst_x < w,
                                dst_y < h,
                        ;
                    }
                    let s = (y * img_width + x) * 4;
                    let idx = (dst_y * self.width + dst_x) * 4;
                    if rgba[s + 3] != 0 && idx + 3 < len {
                        self.buffer[idx] = rgba[s + 2];
                        self.buffer[idx + 1] = rgba[s + 1];
                        self.buffer[idx + 2] = rgba[s];
                    }
                    proof {
                        let target = blitted_upto(start, w, h, rgba@, iw, ih, sx, sy, y as int, x as int + 1);
                        assert forall|k: int| 0 <= k < len implies #[trigger] self.buffer@[k] == target[k] by {
                            lemma_decode(w, 4, dst_x as int, dst_y as int, k, idx as int);
                            lemma_fundamental_div_mod(k, 4);
                            lemma_fundamental_div_mod(k / 4, w);
                            if idx <= k < idx + 3 {
                                assert(k / 4 == dst_y * w + dst_x) by {
                                    lemma_fundamental_div_mod_converse(k, 4, dst_y * w + dst_x, k - idx);
                                }
                                lemma_fundamental_div_mod_converse(dst_y * w + dst_x, w, dst_y as int, dst_x as int);
                            }
                        }
                        assert(self.buffer@ =~= target);
                    }
                } else {
                    proof {
                        let target = blitted_upto(start, w, h, rgba@, iw, ih, sx, sy, y as int, x as int + 1);
                        assert forall|k: int| 0 <= k < len implies #[trigger] self.buffer@[k] == target[k] by {
                            let p = k / 4;
                            if k % 4 < 3 && 0 <= p % w < w && p / w < h && p % w - sx == x && p / w - sy == y {
                                assert(false);
                            }
                        }
                        assert(self.buffer@ =~= target);
                    }
                }
                x += 1;
            }
            proof {
                assert(self.buffer@ =~= blitted_upto(start, w, h, rgba@, iw, ih, sx, sy, y as int + 1, 0));
            }
            y += 1;
        }
    }

    /// Sets the pixel at column `x`, row `y`; nothing changes where it lies outside the
    /// frame.
    pub fn set_pixel_color(&mut self, x: usize, y: usize, color: (u8, u8, u8))
        requires
            old(self).wf(),
        ensures
            final(self).wf(),
            final(self).width == old(self).width,
            final(self).height == old(self).height,
            final(self).line_byte_length == old(self).line_byte_length,
            final(self).bytes_per_pixel == old(self).bytes_per_pixel,
            final(self).buffer@ == if x < old(self).width && y < old(self).height {
                old(self).painted(|a: int, b: int| a == x && b == y, color)
            } else {
                old(self).buffer@
            },
    {
        if x < self.width && y < self.height {
            self.paint_pixel(x, y, color);
        }
    }
}

fn zero_bytes(n: usize) -> (r: Vec<u8>)
    ensures
        r@ == Seq::new(n as nat, |i: int| 0u8),
{
    let mut r: Vec<u8> = Vec::new();
    let mut i: usize = 0;
    while i < n
        invariant
            i <= n,
            r@ == Seq::new(i as nat, |k: int| 0u8),
        decreases n - i,
    {
        r.push(0);
        i += 1;
        assert(r@ =~= Seq::new(i as nat, |k: int| 0u8));
    }
    r
}

/// The start of a later character lies no further left than that of an earlier one.
proof fn lemma_advance_mono(font: &Font, text: Seq<char>, k: int, n: int, scale: int, spacing: int)
    requires
        0 <= k <= n,
        0 <= scale,
        0 <= spacing,
        0 < font.height,
    ensures
        font.advance(text, k, scale, spacing) <= font.advance(text, n, scale, spacing),
        0 <= font.advance(text, k, scale, spacing),
    decreases n,
{
    if n > k {
        lemma_advance_mono(font, text, k, n - 1, scale, spacing);
        assert(0 <= font.width(text[n - 1])) by {
            assert(0 <= (font.glyph(text[n - 1]).len() as int) / (font.height as int)) by (nonlinear_arith)
                requires
                    0 < font.height,
            ;
        }
        assert(0 <= scale * font.width(text[n - 1])) by (nonlinear_arith)
            requires
                0 <= scale,
                0 <= font.width(text[n - 1]),
        ;
    } else if k > 0 {
        lemma_advance_mono(font, text, k - 1, k - 1, scale, spacing);
        assert(0 <= (font.glyph(text[k - 1]).len() as int) / (font.height as int)) by (nonlinear_arith)
            requires
                0 < font.height,
        ;
        assert(0 <= scale * font.width(text[k - 1])) by (nonlinear_arith)
            requires
                0 <= scale,
                0 <= font.width(text[k - 1]),
        ;
    }
}

} // verus!
