use vstd::prelude::*;
use vstd::arithmetic::div_mod::{lemma_fundamental_div_mod, lemma_fundamental_div_mod_converse};

verus! {

/// Byte `c` of a pixel of `color`, as the buffer stores it: blue, green, then red.
pub open spec fn channel(color: (u8, u8, u8), c: int) -> u8 {
    if c == 0 {
        color.2
    } else if c == 1 {
        color.1
    } else {
        color.0
    }
}

/// `buf` with the pixels of `region` (by column and row) set to `color`.
pub open spec fn painted(
    buf: Seq<u8>,
    width: int,
    bpp: int,
    region: spec_fn(int, int) -> bool,
    color: (u8, u8, u8),
) -> Seq<u8> {
    Seq::new(
        buf.len(),
        |k: int|
            {
                let p = k / bpp;
                let c = k % bpp;
                if c < 3 && region(p % width, p / width) {
                    channel(color, c)
                } else {
                    buf[k]
                }
            },
    )
}

/// The rectangle with corners `(x0, y0)` and `(x1, y1)`, in either order.
pub open spec fn in_rectangle(a: int, b: int, x0: int, y0: int, x1: int, y1: int) -> bool {
    &&& (x0 <= a <= x1 || x1 <= a <= x0)
    &&& (y0 <= b <= y1 || y1 <= b <= y0)
}

/// The border of that rectangle.
pub open spec fn on_rectangle_border(a: int, b: int, x0: int, y0: int, x1: int, y1: int) -> bool {
    &&& in_rectangle(a, b, x0, y0, x1, y1)
    &&& (a == x0 || a == x1 || b == y0 || b == y1)
}

/// The disc of radius `r` around `(cx, cy)`.
pub open spec fn in_disc(a: int, b: int, cx: int, cy: int, r: int) -> bool {
    (a - cx) * (a - cx) + (b - cy) * (b - cy) <= r * r
}

/// `(a, b)` lies in a frame of `width` columns and `height` rows.
pub open spec fn in_frame(a: int, b: int, width: int, height: int) -> bool {
    0 <= a < width && 0 <= b < height
}

/// The eight points, one in each octant, of a circle around `(cx, cy)` at offsets
/// `x` and `y`.
pub open spec fn octant_point(cx: int, cy: int, x: int, y: int, a: int, b: int) -> bool {
    ||| a == cx + x && b == cy + y
    ||| a == cx + y && b == cy + x
    ||| a == cx - y && b == cy + x
    ||| a == cx - x && b == cy + y
    ||| a == cx - x && b == cy - y
    ||| a == cx - y && b == cy - x
    ||| a == cx + y && b == cy - x
    ||| a == cx + x && b == cy - y
}

/// The outline points the midpoint walk plots from state `(x, y, err)` on.
pub open spec fn outline_from(cx: int, cy: int, x: int, y: int, err: int, a: int, b: int) -> bool
    decreases x - y + 2,
{
    if x < y {
        false
    } else {
        // one row further, and one column in where the error says the circle has
        // moved inward
        let y2 = y + 1;
        let e1 = err + 1 + 2 * y2;
        let inward = 2 * (e1 - x) + 1 > 0;
        let x2 = if inward {
            x - 1
        } else {
            x
        };
        let e2 = if inward {
            e1 + 1 - 2 * (x - 1)
        } else {
            e1
        };
        octant_point(cx, cy, x, y, a, b) || outline_from(cx, cy, x2, y2, e2, a, b)
    }
}

/// The outline of the circle of radius `r` around `(cx, cy)`, as the midpoint walk
/// plots it.
pub open spec fn on_circle(a: int, b: int, cx: int, cy: int, r: int) -> bool {
    outline_from(cx, cy, r, 0, 0, a, b)
}

/// The points that step `(x, y)` of the walk round quarter `quarter` of a circle around
/// `(cx, cy)` paints: 1 is the upper right quarter, 2 the upper left, 3 the lower left,
/// 4 the lower right. Filled, each step paints two spans from the vertical axis out;
/// otherwise two points.
pub open spec fn quarter_points(
    cx: int,
    cy: int,
    x: int,
    y: int,
    quarter: u8,
    fill: bool,
    a: int,
    b: int,
) -> bool {
    if fill {
        if quarter == 1 {
            (cx <= a <= cx + x && b == cy - y) || (cx <= a <= cx + y && b == cy - x)
        } else if quarter == 2 {
            (cx - x <= a <= cx && b == cy - y) || (cx - y <= a <= cx && b == cy - x)
        } else if quarter == 3 {
            (cx - x <= a <= cx && b == cy + y) || (cx - y <= a <= cx && b == cy + x)
        } else if quarter == 4 {
            (cx <= a <= cx + x && b == cy + y) || (cx <= a <= cx + y && b == cy + x)
        } else {
            false
        }
    } else {
        if quarter == 1 {
            (a == cx + x && b == cy - y) || (a == cx + y && b == cy - x)
        } else if quarter == 2 {
            (a == cx - x && b == cy - y) || (a == cx - y && b == cy - x)
        } else if quarter == 3 {
            (a == cx - x && b == cy + y) || (a == cx - y && b == cy + x)
        } else if quarter == 4 {
            (a == cx + x && b == cy + y) || (a == cx + y && b == cy + x)
        } else {
            false
        }
    }
}

/// The points the quarter walk paints from state `(x, y, err)` on.
pub open spec fn quarter_from(
    cx: int,
    cy: int,
    x: int,
    y: int,
    err: int,
    quarter: u8,
    fill: bool,
    a: int,
    b: int,
) -> bool
    decreases x - y + 2,
{
    if x < y {
        false
    } else {
        let y2 = y + 1;
        let x2 = if err < 0 {
            x
        } else {
            x - 1
        };
        let e2 = if err < 0 {
            err + 2 * y2 + 1
        } else {
            err + 2 * (y2 - x2 + 1)
        };
        quarter_points(cx, cy, x, y, quarter, fill, a, b) || quarter_from(
            cx,
            cy,
            x2,
            y2,
            e2,
            quarter,
            fill,
            a,
            b,
        )
    }
}

/// Quarter `quarter` of the circle of radius `r` around `(cx, cy)`, as the walk paints
/// it.
pub open spec fn on_quarter(a: int, b: int, cx: int, cy: int, r: int, quarter: u8, fill: bool) -> bool {
    quarter_from(cx, cy, r, 0, 1 - r, quarter, fill, a, b)
}

/// The smaller of two coordinates.
pub open spec fn low(p: int, q: int) -> int {
    if p < q {
        p
    } else {
        q
    }
}

/// The larger of two coordinates.
pub open spec fn high(p: int, q: int) -> int {
    if p < q {
        q
    } else {
        p
    }
}

/// The straight parts of a rectangle with rounded corners, between `(lx, ly)` at the top
/// left and `(hx, hy)` at the bottom right: filled, two overlapping rectangles that
/// leave the corners out; otherwise the four sides without the corners.
pub open spec fn rounded_sides(a: int, b: int, lx: int, ly: int, hx: int, hy: int, r: int, fill: bool) -> bool {
    if fill {
        in_rectangle(a, b, lx, ly + r, hx, hy - r) || in_rectangle(a, b, lx + r, ly, hx - r, hy)
    } else {
        ||| in_rectangle(a, b, lx + r, ly, hx - r, ly)
        ||| in_rectangle(a, b, lx + r, hy, hx - r, hy)
        ||| in_rectangle(a, b, lx, ly + r, lx, hy - r)
        ||| in_rectangle(a, b, hx, ly + r, hx, hy - r)
    }
}

/// The four rounded corners of that rectangle.
pub open spec fn rounded_corners(a: int, b: int, lx: int, ly: int, hx: int, hy: int, r: int, fill: bool) -> bool {
    ||| on_quarter(a, b, lx + r, ly + r, r, 2, fill)
    ||| on_quarter(a, b, hx - r, ly + r, r, 1, fill)
    ||| on_quarter(a, b, hx - r, hy - r, r, 4, fill)
    ||| on_quarter(a, b, lx + r, hy - r, r, 3, fill)
}

pub open spec fn abs(v: int) -> int {
    if v < 0 {
        -v
    } else {
        v
    }
}

/// The points Bresenham's walk from `(x, y)` with error `err` visits on its way to
/// `(x1, y1)`, where `dx` is the column distance, `dy` minus the row distance, and
/// `sx`, `sy` the directions of the steps.
pub open spec fn line_from(
    x: int,
    y: int,
    err: int,
    x1: int,
    y1: int,
    dx: int,
    dy: int,
    sx: int,
    sy: int,
    a: int,
    b: int,
) -> bool
    decreases abs(x1 - x) + abs(y1 - y),
{
    if a == x && b == y {
        true
    } else if x == x1 && y == y1 {
        false
    } else {
        let e2 = 2 * err;
        let x2 = if e2 >= dy {
            x + sx
        } else {
            x
        };
        let err1 = if e2 >= dy {
            err + dy
        } else {
            err
        };
        let y2 = if e2 <= dx {
            y + sy
        } else {
            y
        };
        let err2 = if e2 <= dx {
            err1 + dx
        } else {
            err1
        };
        // the walk only ever moves closer to its end
        if 0 <= abs(x1 - x2) + abs(y1 - y2) < abs(x1 - x) + abs(y1 - y) {
            line_from(x2, y2, err2, x1, y1, dx, dy, sx, sy, a, b)
        } else {
            false
        }
    }
}

/// The line from `(x0, y0)` to `(x1, y1)` as Bresenham's walk draws it.
pub open spec fn on_line(a: int, b: int, x0: int, y0: int, x1: int, y1: int) -> bool {
    let dx = abs(x1 - x0);
    let dy = -abs(y1 - y0);
    let sx = if x0 < x1 {
        1int
    } else {
        -1int
    };
    let sy = if y0 < y1 {
        1int
    } else {
        -1int
    };
    line_from(x0, y0, dx + dy, x1, y1, dx, dy, sx, sy, a, b)
}

/// Pixel `(col, row)` of glyph `g`, `width` columns wide and `height` rows high, is set.
pub open spec fn glyph_pixel(g: Seq<u8>, width: int, height: int, col: int, row: int) -> bool {
    0 <= row < height && 0 <= col < width && g[row * width + col] == 1
}

/// `(a, b)` lies in the `scale` by `scale` square that stands for pixel `(col, row)` of
/// a glyph drawn from `(ox, oy)`.
pub open spec fn in_cell(a: int, b: int, ox: int, oy: int, col: int, row: int, scale: int) -> bool {
    ox + col * scale <= a < ox + col * scale + scale && oy + row * scale <= b < oy + row * scale
        + scale
}

/// `(a, b)` lies in the cell of a set pixel of glyph `g` drawn from `(ox, oy)`, among the
/// pixels before `(cols, rows)` in row order.
pub open spec fn on_glyph_upto(
    a: int,
    b: int,
    g: Seq<u8>,
    width: int,
    height: int,
    ox: int,
    oy: int,
    scale: int,
    rows: int,
    cols: int,
) -> bool {
    exists|col: int, row: int|
        glyph_pixel(g, width, height, col, row) && (row < rows || row == rows && col < cols)
            && #[trigger] in_cell(a, b, ox, oy, col, row, scale)
}

/// `(a, b)` is set when glyph `g` is drawn from `(ox, oy)`, each pixel a `scale` square.
pub open spec fn on_glyph(a: int, b: int, g: Seq<u8>, width: int, height: int, ox: int, oy: int, scale: int) -> bool {
    on_glyph_upto(a, b, g, width, height, ox, oy, scale, height, 0)
}

pub(crate) proof fn lemma_painted_union(
    buf: Seq<u8>,
    width: int,
    bpp: int,
    r1: spec_fn(int, int) -> bool,
    r2: spec_fn(int, int) -> bool,
    r3: spec_fn(int, int) -> bool,
    color: (u8, u8, u8),
)
    requires
        forall|a: int, b: int| #[trigger] r3(a, b) == (r1(a, b) || r2(a, b)),
    ensures
        painted(painted(buf, width, bpp, r1, color), width, bpp, r2, color) == painted(
            buf,
            width,
            bpp,
            r3,
            color,
        ),
{
    assert(painted(painted(buf, width, bpp, r1, color), width, bpp, r2, color) =~= painted(
        buf,
        width,
        bpp,
        r3,
        color,
    ));
}

pub(crate) proof fn lemma_painted_same(
    buf: Seq<u8>,
    width: int,
    bpp: int,
    r1: spec_fn(int, int) -> bool,
    r2: spec_fn(int, int) -> bool,
    color: (u8, u8, u8),
)
    requires
        forall|a: int, b: int| #[trigger] r1(a, b) == r2(a, b),
    ensures
        painted(buf, width, bpp, r1, color) == painted(buf, width, bpp, r2, color),
{
    assert(painted(buf, width, bpp, r1, color) =~= painted(buf, width, bpp, r2, color));
}

pub(crate) proof fn lemma_painted_none(buf: Seq<u8>, width: int, bpp: int, color: (u8, u8, u8))
    ensures
        painted(buf, width, bpp, |a: int, b: int| false, color) == buf,
{
    assert(painted(buf, width, bpp, |a: int, b: int| false, color) =~= buf);
}

/// A point of a disc lies within the radius of the centre along each axis.
pub(crate) proof fn lemma_disc_bounds(a: int, b: int, cx: int, cy: int, r: int)
    requires
        0 <= r,
        in_disc(a, b, cx, cy, r),
    ensures
        cx - r <= a <= cx + r,
        cy - r <= b <= cy + r,
{
    assert((a - cx) * (a - cx) >= 0 && (b - cy) * (b - cy) >= 0) by (nonlinear_arith);
    if a - cx > r {
        assert((a - cx) * (a - cx) > r * r) by (nonlinear_arith)
            requires
                a - cx > r,
                r >= 0,
        ;
    }
    if cx - a > r {
        assert((a - cx) * (a - cx) > r * r) by (nonlinear_arith)
            requires
                cx - a > r,
                r >= 0,
        ;
    }
    if b - cy > r {
        assert((b - cy) * (b - cy) > r * r) by (nonlinear_arith)
            requires
                b - cy > r,
                r >= 0,
        ;
    }
    if cy - b > r {
        assert((b - cy) * (b - cy) > r * r) by (nonlinear_arith)
            requires
                cy - b > r,
                r >= 0,
        ;
    }
}

/// The bytes of a pixel inside the frame lie inside the buffer.
pub(crate) proof fn lemma_index_bound(w: int, h: int, bpp: int, lbl: int, x: int, y: int)
    requires
        0 <= x < w,
        0 <= y < h,
        3 <= bpp,
        w * bpp <= lbl,
    ensures
        0 <= y * w + x <= (y * w + x) * bpp,
        (y * w + x) * bpp + bpp <= lbl * h,
{
    assert(0 <= y * w + x) by (nonlinear_arith)
        requires
            0 <= x,
            0 <= y,
            0 <= w,
    ;
    assert(0 <= (y * w + x) * bpp) by (nonlinear_arith)
        requires
            0 <= y * w + x,
            0 <= bpp,
    ;
    assert(y * w + x <= (y * w + x) * bpp) by (nonlinear_arith)
        requires
            0 <= y * w + x,
            1 <= bpp,
    ;
    assert((y * w + x) * bpp + bpp == (y * w + x + 1) * bpp) by (nonlinear_arith);
    assert(y * w + x + 1 <= (y + 1) * w) by (nonlinear_arith)
        requires
            x < w,
    ;
    assert((y * w + x + 1) * bpp <= (y + 1) * w * bpp) by (nonlinear_arith)
        requires
            y * w + x + 1 <= (y + 1) * w,
            0 <= bpp,
    ;
    assert((y + 1) * w * bpp == (y + 1) * (w * bpp)) by (nonlinear_arith);
    assert((y + 1) * (w * bpp) <= (y + 1) * lbl) by (nonlinear_arith)
        requires
            w * bpp <= lbl,
            0 <= y + 1,
    ;
    assert((y + 1) * lbl <= h * lbl) by (nonlinear_arith)
        requires
            y + 1 <= h,
            0 <= lbl,
    ;
    assert(lbl * h == h * lbl) by (nonlinear_arith);
}

/// Byte `k` of the buffer belongs to pixel `(x, y)`, whose first byte is at `index`,
/// exactly when it is one of the three bytes from `index` on.
pub(crate) proof fn lemma_decode(w: int, bpp: int, x: int, y: int, k: int, index: int)
    requires
        0 <= x < w,
        0 <= y,
        3 <= bpp,
        0 <= k,
        index == (y * w + x) * bpp,
    ensures
        ({
            let p = k / bpp;
            let c = k % bpp;
            (c < 3 && p % w == x && p / w == y) <==> (index <= k < index + 3)
        }),
        index <= k < index + 3 ==> k % bpp == k - index,
{
    let p = k / bpp;
    let c = k % bpp;
    lemma_fundamental_div_mod(k, bpp);
    lemma_fundamental_div_mod(p, w);
    assert(0 <= y * w + x) by (nonlinear_arith)
        requires
            0 <= x,
            0 <= y,
            0 <= w,
    ;
    if index <= k < index + 3 {
        assert(k == (y * w + x) * bpp + (k - index));
        lemma_fundamental_div_mod_converse(k, bpp, y * w + x, k - index);
        lemma_fundamental_div_mod_converse(y * w + x, w, y, x);
    }
    if c < 3 && p % w == x && p / w == y {
        assert(p == w * y + x);
        assert(k == bpp * (w * y + x) + c);
        assert(bpp * (w * y + x) == (y * w + x) * bpp) by (nonlinear_arith);
    }
}

} // verus!
