use vstd::prelude::*;
use vstd::string::StrSliceExecFns;
use crate::font::Font;

verus! {

/// A rectangular grid of 32-bit pixels that can be drawn on.
pub trait Bitmap: Sized {
    spec fn spec_bytes_per_pixel(&self) -> int;

    spec fn spec_pixels_per_line(&self) -> int;

    spec fn spec_width(&self) -> int;

    spec fn spec_height(&self) -> int;

    /// The bitmap's own invariant, which drawing keeps.
    spec fn wf(&self) -> bool;

    /// The colour of each point drawn so far, by `(x, y)`.
    spec fn pixels(&self) -> Map<(int, int), u32>;

    fn bytes_per_pixel(&self) -> (r: i64)
        ensures
            r == self.spec_bytes_per_pixel(),
    ;

    fn pixels_per_line(&self) -> (r: i64)
        ensures
            r == self.spec_pixels_per_line(),
    ;

    fn width(&self) -> (r: i64)
        ensures
            r == self.spec_width(),
    ;

    fn height(&self) -> (r: i64)
        ensures
            r == self.spec_height(),
    ;

    /// Sets the pixel at a point within range to `color`.
    fn set_pixel(&mut self, x: i64, y: i64, color: u32)
        requires
            old(self).wf(),
            0 <= x < old(self).spec_width(),
            x < old(self).spec_pixels_per_line(),
            0 <= y < old(self).spec_height(),
        ensures
            final(self).pixels() == old(self).pixels().insert((x as int, y as int), color),
            final(self).spec_bytes_per_pixel() == old(self).spec_bytes_per_pixel(),
            final(self).spec_pixels_per_line() == old(self).spec_pixels_per_line(),
            final(self).spec_width() == old(self).spec_width(),
            final(self).spec_height() == old(self).spec_height(),
            final(self).wf(),
    ;
}

/// Two bitmaps have the same dimensions.
pub open spec fn same_shape<T: Bitmap>(a: &T, b: &T) -> bool {
    &&& a.spec_bytes_per_pixel() == b.spec_bytes_per_pixel()
    &&& a.spec_pixels_per_line() == b.spec_pixels_per_line()
    &&& a.spec_width() == b.spec_width()
    &&& a.spec_height() == b.spec_height()
    &&& b.wf()
}

/// `px` is a column of the visible part of a line.
pub open spec fn in_x_range<T: Bitmap>(buf: &T, px: int) -> bool {
    0 <= px && px < buf.spec_width() && px < buf.spec_pixels_per_line()
}

/// `py` is a row of the bitmap.
pub open spec fn in_y_range<T: Bitmap>(buf: &T, py: int) -> bool {
    0 <= py && py < buf.spec_height()
}

/// `pixels` with every point for which `shape` holds set to `color`.
pub open spec fn painted(
    pixels: Map<(int, int), u32>,
    shape: spec_fn((int, int)) -> bool,
    color: u32,
) -> Map<(int, int), u32> {
    pixels.union_prefer_right(Map::new(shape, |p: (int, int)| color))
}

/// Whether `px` is a column of the visible part of a line.
pub fn is_in_x_range<T: Bitmap>(buf: &T, px: i64) -> (r: bool)
    ensures
        r == in_x_range(buf, px as int),
{
    let w = buf.width();
    let l = buf.pixels_per_line();
    0 <= px && px < if w < l {
        w
    } else {
        l
    }
}

/// Whether `py` is a row of the bitmap.
pub fn is_in_y_range<T: Bitmap>(buf: &T, py: i64) -> (r: bool)
    ensures
        r == in_y_range(buf, py as int),
{
    0 <= py && py < buf.height()
}

/// Sets the pixel at `(x, y)` to `color`; fails with "Out of Range", drawing nothing,
/// when the point lies outside the bitmap.
pub fn draw_point<T: Bitmap>(buf: &mut T, color: u32, x: i64, y: i64) -> (r: Result<(), &'static str>)
    requires
        old(buf).wf(),
    ensures
        r is Ok <==> in_x_range(old(buf), x as int) && in_y_range(old(buf), y as int),
        r is Ok ==> final(buf).pixels() == old(buf).pixels().insert((x as int, y as int), color),
        r is Err ==> final(buf).pixels() == old(buf).pixels(),
        same_shape(old(buf), final(buf)),
{
    if is_in_x_range(buf, x) && is_in_y_range(buf, y) {
        buf.set_pixel(x, y, color);
        Ok(())
    } else {
        Err("Out of Range")
    }
}

/// The points of the `w` by `h` rectangle whose top left corner is `(px, py)`.
pub open spec fn rect(px: int, py: int, w: int, h: int) -> spec_fn((int, int)) -> bool {
    |p: (int, int)| px <= p.0 < px + w && py <= p.1 < py + h
}

/// Fills the `w` by `h` rectangle at `(px, py)` with `color`; fails with "Out of Range",
/// drawing nothing, unless both its first and its last row and column lie within the bitmap.
pub fn fill_rect<T: Bitmap>(buf: &mut T, color: u32, px: i64, py: i64, w: i64, h: i64) -> (r:
    Result<(), &'static str>)
    requires
        old(buf).wf(),
        i64::MIN < px + w <= i64::MAX,
        i64::MIN < py + h <= i64::MAX,
    ensures
        r is Ok <==> in_x_range(old(buf), px as int) && in_y_range(old(buf), py as int)
            && in_x_range(old(buf), px + w - 1) && in_y_range(old(buf), py + h - 1),
        r is Ok ==> final(buf).pixels() == painted(
            old(buf).pixels(),
            rect(px as int, py as int, w as int, h as int),
            color,
        ),
        r is Err ==> final(buf).pixels() == old(buf).pixels(),
        same_shape(old(buf), final(buf)),
{
    if !is_in_x_range(buf, px) || !is_in_y_range(buf, py) || !is_in_x_range(buf, px + w - 1)
        || !is_in_y_range(buf, py + h - 1) {
        return Err("Out of Range");
    }
    let ghost old_pixels = buf.pixels();
    let mut y = py;
    while y < py + h
        invariant
            y == py || py <= y <= py + h,
            py + h <= i64::MAX,
            px + w <= i64::MAX,
            in_x_range(buf, px as int),
            in_y_range(buf, py as int),
            in_x_range(buf, px + w - 1),
            in_y_range(buf, py + h - 1),
            same_shape(old(buf), buf),
            buf.pixels() == painted(old_pixels, rect(px as int, py as int, w as int, y - py), color),
        decreases py + h - y,
    {
        let mut x = px;
        while x < px + w
            invariant
                py <= y < py + h,
                x == px || px <= x <= px + w,
                py + h <= i64::MAX,
                px + w <= i64::MAX,
                in_x_range(buf, px as int),
                in_y_range(buf, py as int),
                in_x_range(buf, px + w - 1),
                in_y_range(buf, py + h - 1),
                same_shape(old(buf), buf),
                buf.pixels() == painted(
                    painted(old_pixels, rect(px as int, py as int, w as int, y - py), color),
                    rect(px as int, y as int, x - px, 1),
                    color,
                ),
            decreases px + w - x,
        {
            buf.set_pixel(x, y, color);
            assert(buf.pixels() =~= painted(
                painted(old_pixels, rect(px as int, py as int, w as int, y - py), color),
                rect(px as int, y as int, x + 1 - px, 1),
                color,
            ));
            x = x + 1;
        }
        assert(buf.pixels() =~= painted(
            old_pixels,
            rect(px as int, py as int, w as int, y + 1 - py),
            color,
        ));
        y = y + 1;
    }
    assert(buf.pixels() =~= painted(old_pixels, rect(px as int, py as int, w as int, h as int), color));
    Ok(())
}

/// `a / b` rounded toward zero, for `b > 0`.
pub open spec fn trunc_div(a: int, b: int) -> int {
    if a >= 0 {
        a / b
    } else {
        -((-a) / b)
    }
}

/// The offset along the minor axis of the `ia`-th point of a line that advances `da`
/// along its major axis and `db` along its minor axis: `ia * db / da`, rounded to nearest.
pub open spec fn slope_point(da: int, db: int, ia: int) -> Option<int> {
    if da < db {
        None
    } else if da == 0 {
        Some(0)
    } else if 0 <= ia <= da {
        Some(trunc_div(trunc_div(2 * db * ia + da, da), 2))
    } else {
        None
    }
}

/// The arithmetic of `slope_point` stays within `i64`.
pub open spec fn slope_fits(da: int, db: int, ia: int) -> bool {
    (db <= da && da != 0 && 0 <= ia <= da) ==> {
        &&& i64::MIN <= 2 * db <= i64::MAX
        &&& i64::MIN <= 2 * db * ia <= i64::MAX
        &&& i64::MIN <= 2 * db * ia + da <= i64::MAX
    }
}

/// Computes `slope_point`.
fn calc_slope_point(da: i64, db: i64, ia: i64) -> (r: Option<i64>)
    requires
        slope_fits(da as int, db as int, ia as int),
    ensures
        r is Some <==> slope_point(da as int, db as int, ia as int) is Some,
        r is Some ==> r->Some_0 == slope_point(da as int, db as int, ia as int)->Some_0,
{
    if da < db {
        None
    } else if da == 0 {
        Some(0)
    } else if 0 <= ia && ia <= da {
        let n = 2 * db * ia + da;
        Some(n / da / 2)
    } else {
        None
    }
}

/// The absolute value of `v`.
pub open spec fn abs(v: int) -> int {
    if v < 0 {
        -v
    } else {
        v
    }
}

/// The sign of `v`: -1, 0 or 1.
pub open spec fn signum(v: int) -> int {
    if v < 0 {
        -1
    } else if v > 0 {
        1
    } else {
        0
    }
}

/// The number of points drawn for the line from `(x0, y0)` to `(x1, y1)`: its
/// length along the major axis; the end point itself is not drawn.
pub open spec fn line_len(x0: int, y0: int, x1: int, y1: int) -> int {
    if abs(x1 - x0) >= abs(y1 - y0) {
        abs(x1 - x0)
    } else {
        abs(y1 - y0)
    }
}

/// The `k`-th point drawn for the line from `(x0, y0)` to `(x1, y1)`.
pub open spec fn line_point(x0: int, y0: int, x1: int, y1: int, k: int) -> (int, int) {
    let dx = abs(x1 - x0);
    let dy = abs(y1 - y0);
    if dx >= dy {
        (x0 + k * signum(x1 - x0), y0 + slope_point(dx, dy, k)->Some_0 * signum(y1 - y0))
    } else {
        (x0 + slope_point(dy, dx, k)->Some_0 * signum(x1 - x0), y0 + k * signum(y1 - y0))
    }
}

/// The first `n` points drawn for the line from `(x0, y0)` to `(x1, y1)`.
pub open spec fn line_upto(x0: int, y0: int, x1: int, y1: int, n: int) -> spec_fn(
    (int, int),
) -> bool {
    |p: (int, int)| exists|k: int| 0 <= k < n && line_point(x0, y0, x1, y1, k) == p
}

/// The arithmetic of drawing the line stays within `i64`.
pub open spec fn line_fits(x0: int, y0: int, x1: int, y1: int) -> bool {
    2 * abs(x1 - x0) * abs(y1 - y0) + abs(x1 - x0) + abs(y1 - y0) <= i64::MAX
}

proof fn lemma_slope_bounds(da: int, db: int, ia: int)
    requires
        0 <= db <= da,
        0 <= ia < da,
        2 * db * da + da <= i64::MAX,
    ensures
        slope_fits(da, db, ia),
        slope_point(da, db, ia) is Some,
        0 <= slope_point(da, db, ia)->Some_0 <= db,
{
    let n = 2 * db * ia + da;
    assert(0 <= 2 * db * ia <= 2 * db * da) by (nonlinear_arith)
        requires
            0 <= db,
            0 <= ia < da,
    ;
    assert(n <= (2 * db + 1) * da) by (nonlinear_arith)
        requires
            n == 2 * db * ia + da,
            2 * db * ia <= 2 * db * da,
    ;
    vstd::arithmetic::div_mod::lemma_div_is_ordered(n, (2 * db + 1) * da, da);
    vstd::arithmetic::div_mod::lemma_div_by_multiple(2 * db + 1, da);
    vstd::arithmetic::div_mod::lemma_div_is_ordered(da, n, da);
    vstd::arithmetic::div_mod::lemma_div_by_self(da);
    assert(2 * db <= 2 * db * da) by (nonlinear_arith)
        requires
            0 <= db,
            1 <= da,
    ;
}

proof fn lemma_mul_signum(v: int, s: int)
    requires
        s == -1 || s == 0 || s == 1,
    ensures
        v * s == if s < 0 {
            -v
        } else if s > 0 {
            v
        } else {
            0
        },
{
    if s == -1 {
        assert(v * s == -v) by (nonlinear_arith)
            requires
                s == -1,
        ;
    } else if s == 1 {
        assert(v * s == v) by (nonlinear_arith)
            requires
                s == 1,
        ;
    } else {
        assert(v * s == 0) by (nonlinear_arith)
            requires
                s == 0,
        ;
    }
}

fn abs_i64(v: i64) -> (r: i64)
    requires
        v > i64::MIN,
    ensures
        r == abs(v as int),
{
    if v < 0 {
        -v
    } else {
        v
    }
}

fn signum_i64(v: i64) -> (r: i64)
    ensures
        r == signum(v as int),
{
    if v < 0 {
        -1
    } else if v > 0 {
        1
    } else {
        0
    }
}

/// Draws the line from `(x0, y0)` towards `(x1, y1)`, one point per step along its
/// major axis, the end point excluded; fails with "Out of Range", drawing nothing,
/// unless both end points lie within the bitmap.
pub fn draw_line<T: Bitmap>(buf: &mut T, color: u32, x0: i64, y0: i64, x1: i64, y1: i64) -> (r:
    Result<(), &'static str>)
    requires
        old(buf).wf(),
        line_fits(x0 as int, y0 as int, x1 as int, y1 as int),
    ensures
        r is Ok <==> in_x_range(old(buf), x0 as int) && in_x_range(old(buf), x1 as int)
            && in_y_range(old(buf), y0 as int) && in_y_range(old(buf), y1 as int),
        r is Ok ==> final(buf).pixels() == painted(
            old(buf).pixels(),
            line_upto(
                x0 as int,
                y0 as int,
                x1 as int,
                y1 as int,
                line_len(x0 as int, y0 as int, x1 as int, y1 as int),
            ),
            color,
        ),
        r is Err ==> final(buf).pixels() == old(buf).pixels(),
        same_shape(old(buf), final(buf)),
{
    if !is_in_x_range(buf, x0) || !is_in_x_range(buf, x1) || !is_in_y_range(buf, y0)
        || !is_in_y_range(buf, y1) {
        return Err("Out of Range");
    }
    let ghost old_pixels = buf.pixels();
    let ghost (gx0, gy0, gx1, gy1) = (x0 as int, y0 as int, x1 as int, y1 as int);
    let dx = abs_i64(x1 - x0);
    let sx = signum_i64(x1 - x0);
    let dy = abs_i64(y1 - y0);
    let sy = signum_i64(y1 - y0);
    let n = if dx >= dy {
        dx
    } else {
        dy
    };
    let mut k: i64 = 0;
    while k < n
        invariant
            0 <= k <= n,
            n == line_len(gx0, gy0, gx1, gy1),
            dx == abs(gx1 - gx0),
            dy == abs(gy1 - gy0),
            sx == signum(gx1 - gx0),
            sy == signum(gy1 - gy0),
            gx0 == x0 && gy0 == y0 && gx1 == x1 && gy1 == y1,
            line_fits(gx0, gy0, gx1, gy1),
            in_x_range(buf, gx0),
            in_x_range(buf, gx1),
            in_y_range(buf, gy0),
            in_y_range(buf, gy1),
            same_shape(old(buf), buf),
            buf.pixels() == painted(old_pixels, line_upto(gx0, gy0, gx1, gy1, k as int), color),
        decreases n - k,
    {
        let ghost before = buf.pixels();
        proof {
            assert(2 * dy * dx + dx <= i64::MAX && 2 * dx * dy + dy <= i64::MAX) by (nonlinear_arith)
                requires
                    2 * dx * dy + dx + dy <= i64::MAX,
                    dx >= 0,
                    dy >= 0,
            ;
            if dx >= dy {
                lemma_slope_bounds(dx as int, dy as int, k as int);
            } else {
                lemma_slope_bounds(dy as int, dx as int, k as int);
            }
        }
        proof {
            lemma_mul_signum(k as int, sx as int);
            lemma_mul_signum(k as int, sy as int);
        }
        let (px, py) = if dx >= dy {
            let ry = calc_slope_point(dx, dy, k).unwrap();
            proof {
                lemma_mul_signum(ry as int, sy as int);
            }
            (x0 + k * sx, y0 + ry * sy)
        } else {
            let rx = calc_slope_point(dy, dx, k).unwrap();
            proof {
                lemma_mul_signum(rx as int, sx as int);
            }
            (x0 + rx * sx, y0 + k * sy)
        };
        assert((px as int, py as int) == line_point(gx0, gy0, gx1, gy1, k as int));
        let drawn = draw_point(buf, color, px, py);
        assert(drawn is Ok);
        assert(buf.pixels() =~= painted(old_pixels, line_upto(gx0, gy0, gx1, gy1, k + 1), color))
            by {
            assert forall|p: (int, int)|
                #[trigger] line_upto(gx0, gy0, gx1, gy1, k + 1)(p) <==> (line_upto(gx0, gy0, gx1, gy1, k as int)(
                    p,
                ) || p == line_point(gx0, gy0, gx1, gy1, k as int)) by {
                if line_upto(gx0, gy0, gx1, gy1, k + 1)(p) {
                    let j = choose|j: int|
                        0 <= j < k + 1 && line_point(gx0, gy0, gx1, gy1, j) == p;
                    if j < k {
                        assert(line_upto(gx0, gy0, gx1, gy1, k as int)(p));
                    }
                }
                if line_upto(gx0, gy0, gx1, gy1, k as int)(p) {
                    let j = choose|j: int| 0 <= j < k && line_point(gx0, gy0, gx1, gy1, j) == p;
                    assert(0 <= j < k + 1);
                }
            }
        }
        k = k + 1;
    }
    Ok(())
}

/// The points that drawing `c` with its top left corner at `(x, y)` sets: those of
/// the glyph marked '*' that lie within the bitmap; none when `c` is not below 256.
pub open spec fn glyph_points<T: Bitmap>(buf: &T, font: &Font, c: char, x: int, y: int) -> spec_fn(
    (int, int),
) -> bool {
    |p: (int, int)|
        (c as u32) < 256 && in_x_range(buf, p.0) && in_y_range(buf, p.1) && x <= p.0 < x + 8 && y
            <= p.1 < y + 16 && font.glyph_at(c as int, p.1 - y, p.0 - x) == '*'
}

/// The points of the glyph at `(x, y)` on the rows above `dy`, and on row `dy` left of `dx`.
pub open spec fn glyph_points_upto<T: Bitmap>(
    buf: &T,
    font: &Font,
    c: char,
    x: int,
    y: int,
    dy: int,
    dx: int,
) -> spec_fn((int, int)) -> bool {
    |p: (int, int)|
        glyph_points(buf, font, c, x, y)(p) && (p.1 - y < dy || (p.1 - y == dy && p.0 - x < dx))
}

/// Draws the glyph of `c` with its top left corner at `(x, y)`: each of its pixels
/// marked '*' that lies within the bitmap is set to `color`.
pub fn draw_font_fg<T: Bitmap>(buf: &mut T, font: &Font, x: i64, y: i64, color: u32, c: char)
    requires
        old(buf).wf(),
        font.wf(),
        x <= i64::MAX - 8,
        y <= i64::MAX - 16,
    ensures
        same_shape(old(buf), final(buf)),
        final(buf).pixels() == painted(
            old(buf).pixels(),
            glyph_points(old(buf), font, c, x as int, y as int),
            color,
        ),
{
    let ghost old_pixels = buf.pixels();
    match font.lookup_font(c) {
        Some(glyph) => {
            let mut dy: usize = 0;
            while dy < 16
                invariant
                    dy <= 16,
                    x <= i64::MAX - 8,
                    y <= i64::MAX - 16,
                    (c as u32) < 256,
                    glyph@.len() == 128,
                    forall|yy: int, xx: int|
                        0 <= yy < 16 && 0 <= xx < 8 ==> #[trigger] glyph@[yy * 8 + xx]
                            == font.glyph_at(c as int, yy, xx),
                    same_shape(old(buf), buf),
                    buf.pixels() == painted(
                        old_pixels,
                        glyph_points_upto(old(buf), font, c, x as int, y as int, dy as int, 0),
                        color,
                    ),
                decreases 16 - dy,
            {
                let mut dx: usize = 0;
                while dx < 8
                    invariant
                        dx <= 8,
                        dy < 16,
                        x <= i64::MAX - 8,
                        y <= i64::MAX - 16,
                        (c as u32) < 256,
                        glyph@.len() == 128,
                        forall|yy: int, xx: int|
                            0 <= yy < 16 && 0 <= xx < 8 ==> #[trigger] glyph@[yy * 8 + xx]
                                == font.glyph_at(c as int, yy, xx),
                        same_shape(old(buf), buf),
                        buf.pixels() == painted(
                            old_pixels,
                            glyph_points_upto(
                                old(buf),
                                font,
                                c,
                                x as int,
                                y as int,
                                dy as int,
                                dx as int,
                            ),
                            color,
                        ),
                    decreases 8 - dx,
                {
                    let px = x + dx as i64;
                    let py = y + dy as i64;
                    if glyph[dy * 8 + dx] == '*' {
                        let _ = draw_point(buf, color, px, py);
                    }
                    assert(buf.pixels() =~= painted(
                        old_pixels,
                        glyph_points_upto(
                            old(buf),
                            font,
                            c,
                            x as int,
                            y as int,
                            dy as int,
                            dx + 1,
                        ),
                        color,
                    ));
                    dx = dx + 1;
                }
                assert(buf.pixels() =~= painted(
                    old_pixels,
                    glyph_points_upto(old(buf), font, c, x as int, y as int, dy + 1, 0),
                    color,
                ));
                dy = dy + 1;
            }
            assert(buf.pixels() =~= painted(
                old_pixels,
                glyph_points(old(buf), font, c, x as int, y as int),
                color,
            ));
        },
        None => {
            assert(buf.pixels() =~= painted(
                old_pixels,
                glyph_points(old(buf), font, c, x as int, y as int),
                color,
            ));
        },
    }
}

/// The points that drawing the first `n` characters of `s` from `(x, y)` sets: the
/// `i`-th glyph stands `8 * i` to the right of `x`.
pub open spec fn str_points<T: Bitmap>(
    buf: &T,
    font: &Font,
    s: Seq<char>,
    n: int,
    x: int,
    y: int,
) -> spec_fn((int, int)) -> bool {
    |p: (int, int)| exists|i: int| 0 <= i < n && #[trigger] glyph_points(buf, font, s[i], x + 8 * i, y)(p)
}

/// Draws the characters of `s` side by side from `(x, y)`, 8 pixels apart.
pub fn draw_str_fg<T: Bitmap>(buf: &mut T, font: &Font, x: i64, y: i64, color: u32, s: &str)
    requires
        old(buf).wf(),
        font.wf(),
        0 <= x,
        x + 8 * s@.len() <= i64::MAX - 8,
        y <= i64::MAX - 16,
    ensures
        same_shape(old(buf), final(buf)),
        final(buf).pixels() == painted(
            old(buf).pixels(),
            str_points(old(buf), font, s@, s@.len() as int, x as int, y as int),
            color,
        ),
{
    let ghost old_pixels = buf.pixels();
    let n = s.unicode_len();
    let mut i: usize = 0;
    while i < n
        invariant
            i <= n,
            n == s@.len(),
            0 <= x,
            x + 8 * s@.len() <= i64::MAX - 8,
            y <= i64::MAX - 16,
            font.wf(),
            same_shape(old(buf), buf),
            buf.pixels() == painted(
                old_pixels,
                str_points(old(buf), font, s@, i as int, x as int, y as int),
                color,
            ),
        decreases n - i,
    {
        let c = s.get_char(i);
        let ghost before = buf.pixels();
        draw_font_fg(buf, font, x + i as i64 * 8, y, color, c);
        assert(buf.pixels() =~= painted(
            old_pixels,
            str_points(old(buf), font, s@, i + 1, x as int, y as int),
            color,
        )) by {
            assert forall|p: (int, int)| #[trigger]
                str_points(old(buf), font, s@, i + 1, x as int, y as int)(p) <==> (str_points(
                    old(buf),
                    font,
                    s@,
                    i as int,
                    x as int,
                    y as int,
                )(p) || glyph_points(old(buf), font, c, x + 8 * i, y as int)(p)) by {
                if str_points(old(buf), font, s@, i + 1, x as int, y as int)(p) {
                    let j = choose|j: int|
                        0 <= j < i + 1 && #[trigger] glyph_points(
                            old(buf),
                            font,
                            s@[j],
                            x + 8 * j,
                            y as int,
                        )(p);
                    if j < i {
                        assert(str_points(old(buf), font, s@, i as int, x as int, y as int)(p));
                    }
                }
                if str_points(old(buf), font, s@, i as int, x as int, y as int)(p) {
                    let j = choose|j: int|
                        0 <= j < i && #[trigger] glyph_points(
                            old(buf),
                            font,
                            s@[j],
                            x + 8 * j,
                            y as int,
                        )(p);
                    assert(0 <= j < i + 1);
                }
                if glyph_points(old(buf), font, c, x + 8 * i, y as int)(p) {
                    assert(glyph_points(old(buf), font, s@[i as int], x + 8 * i, y as int)(p));
                }
            }
        }
        i = i + 1;
    }
}

/// The colour of the `i`-th band of the test pattern.
pub open spec fn band_color(i: int) -> u32 {
    if i == 0 {
        0x000000
    } else if i == 1 {
        0xff0000
    } else if i == 2 {
        0x00ff00
    } else {
        0x0000ff
    }
}

/// `m` once the first `n` bands of the test pattern are filled: band `i` is a 64 by 64
/// square of its colour at `(left, 64 * i)` beside one of the inverted colour.
pub open spec fn bands_upto(m: Map<(int, int), u32>, left: int, n: int) -> Map<(int, int), u32>
    decreases n,
{
    if n <= 0 {
        m
    } else {
        let m1 = bands_upto(m, left, n - 1);
        let y = 64 * (n - 1);
        painted(
            painted(m1, rect(left, y, 64, 64), band_color(n - 1)),
            rect(left + 64, y, 64, 64),
            !band_color(n - 1),
        )
    }
}

/// The `i`-th corner of the 128 by 128 square of the test pattern, relative to its top left.
pub open spec fn corner(i: int) -> (int, int) {
    if i == 0 {
        (0, 0)
    } else if i == 1 {
        (0, 128)
    } else if i == 2 {
        (128, 0)
    } else {
        (128, 128)
    }
}

/// `m` once the line from `(x0, y0)` to `(x1, y1)` is drawn in white on `buf`, where both
/// end points lie within it; `m` itself otherwise.
pub open spec fn line_drawn<T: Bitmap>(
    m: Map<(int, int), u32>,
    buf: &T,
    x0: int,
    y0: int,
    x1: int,
    y1: int,
) -> Map<(int, int), u32> {
    if in_x_range(buf, x0) && in_x_range(buf, x1) && in_y_range(buf, y0) && in_y_range(buf, y1) {
        painted(m, line_upto(x0, y0, x1, y1, line_len(x0, y0, x1, y1)), 0xffffff)
    } else {
        m
    }
}

/// `m` once the first `n` of the 16 lines between each pair of corners are drawn, the
/// `k`-th from corner `k / 4` to corner `k % 4`.
pub open spec fn lines_upto<T: Bitmap>(m: Map<(int, int), u32>, buf: &T, left: int, n: int) -> Map<
    (int, int),
    u32,
>
    decreases n,
{
    if n <= 0 {
        m
    } else {
        let a = corner((n - 1) / 4);
        let b = corner((n - 1) % 4);
        line_drawn(lines_upto(m, buf, left, n - 1), buf, left + a.0, a.1, left + b.0, b.1)
    }
}

/// The test pattern drawn on `m`, with `left` the column 129 from the right edge: four
/// bands of squares, the lines between the corners of a square beside them, and two
/// lines of green digits beneath.
pub open spec fn test_pattern<T: Bitmap>(m: Map<(int, int), u32>, buf: &T, font: &Font) -> Map<
    (int, int),
    u32,
> {
    let left = buf.spec_width() - 129;
    let m1 = lines_upto(bands_upto(m, left, 4), buf, left, 16);
    let m2 = painted(m1, str_points(buf, font, "0123456789"@, 10, left, 256), 0x00ff00);
    painted(m2, str_points(buf, font, "ABCDEF"@, 6, left, 272), 0x00ff00)
}

/// Draws a test pattern at the right edge of the bitmap.
pub fn draw_test_pattern<T: Bitmap>(buf: &mut T, font: &Font)
    requires
        old(buf).wf(),
        font.wf(),
        129 <= old(buf).spec_width() <= old(buf).spec_pixels_per_line() + 1,
        old(buf).spec_width() <= i64::MAX - 128,
        256 <= old(buf).spec_height(),
    ensures
        same_shape(old(buf), final(buf)),
        final(buf).pixels() == test_pattern(old(buf).pixels(), old(buf), font),
{
    let ghost old_pixels = buf.pixels();
    let w: i64 = 128;
    let left = buf.width() - w - 1;
    let colors: [u32; 4] = [0x000000, 0xff0000, 0x00ff00, 0x0000ff];
    let h: i64 = 64;
    let mut i: usize = 0;
    while i < 4
        invariant
            i <= 4,
            left == old(buf).spec_width() - 129,
            w == 128,
            h == 64,
            colors@ == seq![0x000000u32, 0xff0000u32, 0x00ff00u32, 0x0000ffu32],
            129 <= old(buf).spec_width() <= old(buf).spec_pixels_per_line() + 1,
            old(buf).spec_width() <= i64::MAX - 128,
            256 <= old(buf).spec_height(),
            same_shape(old(buf), buf),
            buf.pixels() == bands_upto(old_pixels, left as int, i as int),
        decreases 4 - i,
    {
        let c = colors[i];
        let y = i as i64 * h;
        let r1 = fill_rect(buf, c, left, y, h, h);
        assert(r1 is Ok);
        let r2 = fill_rect(buf, !c, left + h, y, h, h);
        assert(r2 is Ok);
        i = i + 1;
    }
    let points: [(i64, i64); 4] = [(0, 0), (0, w), (w, 0), (w, w)];
    let mut a: usize = 0;
    while a < 4
        invariant
            a <= 4,
            left == old(buf).spec_width() - 129,
            w == 128,
            points@ == seq![(0i64, 0i64), (0i64, 128i64), (128i64, 0i64), (128i64, 128i64)],
            129 <= old(buf).spec_width() <= old(buf).spec_pixels_per_line() + 1,
            old(buf).spec_width() <= i64::MAX - 128,
            256 <= old(buf).spec_height(),
            same_shape(old(buf), buf),
            buf.pixels() == lines_upto(
                bands_upto(old_pixels, left as int, 4),
                old(buf),
                left as int,
                4 * a,
            ),
        decreases 4 - a,
    {
        let mut b: usize = 0;
        while b < 4
            invariant
                a < 4,
                b <= 4,
                left == old(buf).spec_width() - 129,
                w == 128,
                points@ == seq![(0i64, 0i64), (0i64, 128i64), (128i64, 0i64), (128i64, 128i64)],
                129 <= old(buf).spec_width() <= old(buf).spec_pixels_per_line() + 1,
                old(buf).spec_width() <= i64::MAX - 128,
                256 <= old(buf).spec_height(),
                same_shape(old(buf), buf),
                buf.pixels() == lines_upto(
                    bands_upto(old_pixels, left as int, 4),
                    old(buf),
                    left as int,
                    4 * a + b,
                ),
            decreases 4 - b,
        {
            let (x0, y0) = points[a];
            let (x1, y1) = points[b];
            proof {
                let k = 4 * a + b;
                assert(k / 4 == a && k % 4 == b) by (nonlinear_arith)
                    requires
                        k == 4 * a + b,
                        0 <= b < 4,
                        0 <= a,
                ;
            }
            proof {
                let dx = abs(x1 - x0);
                let dy = abs(y1 - y0);
                assert(0 <= dx <= 128 && 0 <= dy <= 128);
                assert(2 * dx * dy + dx + dy <= i64::MAX) by (nonlinear_arith)
                    requires
                        0 <= dx <= 128,
                        0 <= dy <= 128,
                ;
                assert(abs((left + x1) - (left + x0)) == dx);
            }
            let _ = draw_line(buf, 0xffffff, left + x0, y0, left + x1, y1);
            b = b + 1;
        }
        a = a + 1;
    }
    proof {
        reveal_strlit("0123456789");
        reveal_strlit("ABCDEF");
    }
    let ghost b1 = *buf;
    draw_str_fg(buf, font, left, h * 4, 0x00ff00, "0123456789");
    let ghost b2 = *buf;
    draw_str_fg(buf, font, left, h * 4 + 16, 0x00ff00, "ABCDEF");
    proof {
        lemma_str_points_shape(old(buf), &b1, font, "0123456789"@, 10, left as int, 256);
        lemma_str_points_shape(old(buf), &b2, font, "ABCDEF"@, 6, left as int, 272);
    }
}

/// The points of a string depend on the bitmap's dimensions alone.
proof fn lemma_str_points_shape<T: Bitmap>(
    a: &T,
    b: &T,
    font: &Font,
    s: Seq<char>,
    n: int,
    x: int,
    y: int,
)
    requires
        same_shape(a, b),
    ensures
        str_points(a, font, s, n, x, y) == str_points(b, font, s, n, x, y),
{
    assert forall|p: (int, int)|
        #[trigger] str_points(a, font, s, n, x, y)(p) == str_points(b, font, s, n, x, y)(p) by {
        if str_points(a, font, s, n, x, y)(p) {
            let i = choose|i: int| 0 <= i < n && #[trigger] glyph_points(a, font, s[i], x + 8 * i, y)(p);
            assert(glyph_points(b, font, s[i], x + 8 * i, y)(p));
        }
        if str_points(b, font, s, n, x, y)(p) {
            let i = choose|i: int| 0 <= i < n && #[trigger] glyph_points(b, font, s[i], x + 8 * i, y)(p);
            assert(glyph_points(a, font, s[i], x + 8 * i, y)(p));
        }
    }
    assert(str_points(a, font, s, n, x, y) =~= str_points(b, font, s, n, x, y));
}

proof fn lemma_row_major(w: int, x1: int, y1: int, x2: int, y2: int)
    requires
        0 <= x1 < w,
        0 <= x2 < w,
        0 <= y1,
        0 <= y2,
        y1 * w + x1 == y2 * w + x2,
    ensures
        x1 == x2 && y1 == y2,
{
    if y1 < y2 {
        assert(y1 * w + x1 < y2 * w + x2) by (nonlinear_arith)
            requires
                y1 < y2,
                0 <= x1 < w,
                0 <= x2,
        ;
    } else if y2 < y1 {
        assert(y2 * w + x2 < y1 * w + x1) by (nonlinear_arith)
            requires
                y2 < y1,
                0 <= x2 < w,
                0 <= x1,
        ;
    }
}

proof fn lemma_row_major_bound(w: int, h: int, x: int, y: int)
    requires
        0 <= x < w,
        0 <= y < h,
    ensures
        0 <= y * w + x < w * h,
{
    assert(0 <= y * w + x < w * h) by (nonlinear_arith)
        requires
            0 <= x < w,
            0 <= y < h,
    ;
}

/// A bitmap held in memory: `width * height` pixels of four bytes, row after row.
pub struct FrameBuffer {
    width: i64,
    height: i64,
    buf: Vec<u32>,
}

impl FrameBuffer {
    /// A `width` by `height` bitmap with every pixel set to `color`.
    pub fn new(width: i64, height: i64, color: u32) -> (r: Self)
        requires
            0 <= width <= usize::MAX,
            0 <= height <= usize::MAX,
            width * height <= usize::MAX,
        ensures
            r.spec_width() == width,
            r.spec_height() == height,
            r.spec_pixels_per_line() == width,
            r.spec_bytes_per_pixel() == 4,
            r.wf(),
            r.pixels() == Map::new(
                |p: (int, int)| 0 <= p.0 < width && 0 <= p.1 < height,
                |p: (int, int)| color,
            ),
    {
        let n = width as usize * height as usize;
        assert(n == width * height);
        let mut buf: Vec<u32> = Vec::new();
        let mut i: usize = 0;
        while i < n
            invariant
                i <= n,
                buf@.len() == i,
                forall|j: int| 0 <= j < i ==> buf@[j] == color,
            decreases n - i,
        {
            buf.push(color);
            i = i + 1;
        }
        let r = FrameBuffer { width, height, buf };
        assert(r.pixels() =~= Map::new(
            |p: (int, int)| 0 <= p.0 < width && 0 <= p.1 < height,
            |p: (int, int)| color,
        )) by {
            assert forall|p: (int, int)| 0 <= p.0 < width && 0 <= p.1 < height implies r.buf@[p.1
                * width + p.0] == color by {
                lemma_row_major_bound(width as int, height as int, p.0, p.1);
            }
        }
        r
    }

    /// The colour of the pixel at `(x, y)`, or `None` outside the bitmap.
    pub fn pixel(&self, x: i64, y: i64) -> (r: Option<u32>)
        requires
            self.wf(),
        ensures
            r is Some <==> self.pixels().dom().contains((x as int, y as int)),
            r is Some ==> r->Some_0 == self.pixels()[(x as int, y as int)],
    {
        if 0 <= x && x < self.width && 0 <= y && y < self.height {
            proof {
                lemma_row_major_bound(self.width as int, self.height as int, x as int, y as int);
            }
            let len = self.buf.len();
            assert(y * self.width + x < len);
            Some(self.buf[y as usize * self.width as usize + x as usize])
        } else {
            None
        }
    }
}

impl Bitmap for FrameBuffer {
    closed spec fn wf(&self) -> bool {
        &&& 0 <= self.width <= usize::MAX
        &&& 0 <= self.height <= usize::MAX
        &&& self.buf@.len() == self.width * self.height
    }

    closed spec fn spec_bytes_per_pixel(&self) -> int {
        4
    }

    closed spec fn spec_pixels_per_line(&self) -> int {
        self.width as int
    }

    closed spec fn spec_width(&self) -> int {
        self.width as int
    }

    closed spec fn spec_height(&self) -> int {
        self.height as int
    }

    closed spec fn pixels(&self) -> Map<(int, int), u32> {
        Map::new(
            |p: (int, int)| 0 <= p.0 < self.width && 0 <= p.1 < self.height,
            |p: (int, int)| self.buf@[p.1 * self.width + p.0],
        )
    }

    fn bytes_per_pixel(&self) -> (r: i64) {
        4
    }

    fn pixels_per_line(&self) -> (r: i64) {
        self.width
    }

    fn width(&self) -> (r: i64) {
        self.width
    }

    fn height(&self) -> (r: i64) {
        self.height
    }

    fn set_pixel(&mut self, x: i64, y: i64, color: u32) {
        proof {
            lemma_row_major_bound(self.width as int, self.height as int, x as int, y as int);
        }
        let ghost before = self.pixels();
        let len = self.buf.len();
        assert(y * self.width + x < len);
        let i = y as usize * self.width as usize + x as usize;
        self.buf.set(i, color);
        assert(self.pixels() =~= before.insert((x as int, y as int), color)) by {
            assert forall|p: (int, int)| #[trigger]
                self.pixels().dom().contains(p) && p != (x as int, y as int) implies self.buf@[p.1
                * self.width + p.0] == before[p] by {
                lemma_row_major_bound(self.width as int, self.height as int, p.0, p.1);
                if p.1 * self.width + p.0 == y * self.width + x {
                    lemma_row_major(self.width as int, p.0, p.1, x as int, y as int);
                }
            }
        }
    }
}

/// Where the cursor stands after writing `s` from `c0`: each character moves it 8
/// to the right; '\n' moves it to the start of the line 16 below.
pub open spec fn cursor_after(c0: (int, int), s: Seq<char>) -> (int, int)
    decreases s.len(),
{
    if s.len() == 0 {
        c0
    } else {
        let c = cursor_after(c0, s.drop_last());
        if s.last() == '\n' {
            (0, c.1 + 16)
        } else {
            (c.0 + 8, c.1)
        }
    }
}

/// The points that writing `s` from cursor `c0` sets.
pub open spec fn text_points<T: Bitmap>(buf: &T, font: &Font, c0: (int, int), s: Seq<char>) -> spec_fn(
    (int, int),
) -> bool
    decreases s.len(),
{
    if s.len() == 0 {
        |p: (int, int)| false
    } else {
        let c = cursor_after(c0, s.drop_last());
        let prev = text_points(buf, font, c0, s.drop_last());
        if s.last() == '\n' {
            prev
        } else {
            |p: (int, int)| prev(p) || glyph_points(buf, font, s.last(), c.0, c.1)(p)
        }
    }
}

proof fn lemma_cursor_bounds(c0: (int, int), s: Seq<char>)
    requires
        c0.0 >= 0,
    ensures
        0 <= cursor_after(c0, s).0 <= c0.0 + 8 * s.len(),
        c0.1 <= cursor_after(c0, s).1 <= c0.1 + 16 * s.len(),
    decreases s.len(),
{
    if s.len() > 0 {
        lemma_cursor_bounds(c0, s.drop_last());
    }
}

/// Draws text on a bitmap, one 8 by 16 glyph after another, from the top left corner.
pub struct BitmapTextWriter<T> {
    buf: T,
    cursor_x: i64,
    cursor_y: i64,
}

impl<T: Bitmap> BitmapTextWriter<T> {
    pub closed spec fn spec_buf(&self) -> T {
        self.buf
    }

    pub closed spec fn spec_cursor(&self) -> (int, int) {
        (self.cursor_x as int, self.cursor_y as int)
    }

    /// The cursor never stands left of the first column.
    pub open spec fn wf(&self) -> bool {
        &&& self.spec_cursor().0 >= 0
        &&& self.spec_buf().wf()
    }

    /// The bitmap written on.
    pub fn buf(&self) -> (r: &T)
        ensures
            *r == self.spec_buf(),
    {
        &self.buf
    }

    /// Writes `s` in white at the cursor, glyph after glyph; '\n' starts a new line.
    pub fn write_str(&mut self, font: &Font, s: &str)
        requires
            old(self).wf(),
            font.wf(),
            old(self).spec_cursor().0 + 8 * s@.len() <= i64::MAX - 8,
            old(self).spec_cursor().1 + 16 * s@.len() <= i64::MAX - 16,
        ensures
            final(self).wf(),
            same_shape(&old(self).spec_buf(), &final(self).spec_buf()),
            final(self).spec_cursor() == cursor_after(old(self).spec_cursor(), s@),
            final(self).spec_buf().pixels() == painted(
                old(self).spec_buf().pixels(),
                text_points(&old(self).spec_buf(), font, old(self).spec_cursor(), s@),
                0xffffff,
            ),
    {
        let ghost b0 = self.buf;
        let ghost c0 = (self.cursor_x as int, self.cursor_y as int);
        let n = s.unicode_len();
        let mut i: usize = 0;
        while i < n
            invariant
                i <= n,
                n == s@.len(),
                font.wf(),
                c0.0 >= 0,
                c0.0 + 8 * s@.len() <= i64::MAX - 8,
                c0.1 + 16 * s@.len() <= i64::MAX - 16,
                same_shape(&b0, &self.buf),
                (self.cursor_x as int, self.cursor_y as int) == cursor_after(c0, s@.take(i as int)),
                self.buf.pixels() == painted(
                    b0.pixels(),
                    text_points(&b0, font, c0, s@.take(i as int)),
                    0xffffff,
                ),
            decreases n - i,
        {
            let c = s.get_char(i);
            proof {
                let t = s@.take(i + 1);
                assert(t.drop_last() =~= s@.take(i as int));
                assert(t.last() == c);
                lemma_cursor_bounds(c0, s@.take(i as int));
            }
            if c == '\n' {
                self.cursor_y = self.cursor_y + 16;
                self.cursor_x = 0;
            } else {
                draw_font_fg(&mut self.buf, font, self.cursor_x, self.cursor_y, 0xffffff, c);
                self.cursor_x = self.cursor_x + 8;
                assert(self.buf.pixels() =~= painted(
                    b0.pixels(),
                    text_points(&b0, font, c0, s@.take(i + 1)),
                    0xffffff,
                ));
            }
            i = i + 1;
        }
        assert(s@.take(n as int) =~= s@);
        proof {
            lemma_cursor_bounds(c0, s@);
        }
    }

    /// A writer on `buf` with its cursor at the top left corner.
    pub fn new(buf: T) -> (r: Self)
        ensures
            r.spec_buf() == buf,
            r.spec_cursor() == (0int, 0int),
    {
        Self { buf, cursor_x: 0, cursor_y: 0 }
    }
}

} // verus!
