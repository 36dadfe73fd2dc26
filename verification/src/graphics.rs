//! Drawing points, rectangles, lines and text on bitmaps.
use vstd::prelude::*;
use crate::result::Result;
use crate::font::{Font, lookup_font};

verus! {

/// The truncating integer division of Rust (`a / b` rounded toward zero),
/// for positive `b`.
pub open spec fn div_trunc(a: int, b: int) -> int {
    if a >= 0 {
        a / b
    } else {
        -((-a) / b)
    }
}

/// The offset along the minor axis of the `ia`-th step of a line that
/// advances `da` along its major axis and `db` along its minor axis.
pub open spec fn slope_point(da: int, db: int, ia: int) -> Option<int> {
    if da < db {
        None
    } else if da == 0 {
        Some(0)
    } else if 0 <= ia <= da {
        Some(slope_value(da, db, ia))
    } else {
        None
    }
}

/// `db * ia / da`, rounded to the nearest integer as the line drawing does.
pub open spec fn slope_value(da: int, db: int, ia: int) -> int {
    div_trunc(div_trunc(2 * db * ia + da, da), 2)
}

/// The inputs on which computing `slope_point` stays within `i64`.
pub open spec fn slope_point_fits(da: int, db: int, ia: int) -> bool {
    (db <= da && da != 0 && 0 <= ia <= da) ==> i64::MIN <= 2 * db * ia + da <= i64::MAX && i64::MIN
        <= 2 * db <= i64::MAX && i64::MIN <= 2 * db * ia <= i64::MAX
}

/// Interpolates the minor-axis offset of step `ia` of a line with extents
/// `da` (major) and `db` (minor), rounding to the nearest integer.
fn calc_slope_point(da: i64, db: i64, ia: i64) -> (r: Option<i64>)
    requires
        slope_point_fits(da as int, db as int, ia as int),
    ensures
        r is Some <==> slope_point(da as int, db as int, ia as int) is Some,
        r matches Some(v) ==> slope_point(da as int, db as int, ia as int) == Some(v as int),
{
    if da < db {
        None
    } else if da == 0 {
        Some(0)
    } else if 0 <= ia && ia <= da {
        Some((2 * db * ia + da) / da / 2)
    } else {
        None
    }
}

/// The pixels of an image, by `(x, y)` coordinate.
pub type Image = Map<(int, int), u32>;

/// `m` with every point of `pts` set to `color`.
pub open spec fn paint(m: Image, pts: Set<(int, int)>, color: u32) -> Image {
    Map::new(
        |k: (int, int)| m.dom().contains(k) || pts.contains(k),
        |k: (int, int)| if pts.contains(k) { color } else { m[k] },
    )
}

/// A surface of pixels that can be drawn on: its geometry and a way to
/// set one visible pixel.
pub trait Bitmap: Sized {
    spec fn spec_bytes_per_pixel(&self) -> i64;

    spec fn spec_pixels_per_line(&self) -> i64;

    spec fn spec_width(&self) -> i64;

    spec fn spec_height(&self) -> i64;

    /// The colors of the pixels.
    spec fn image(&self) -> Image;

    /// The bitmap's internal consistency.
    spec fn wf(&self) -> bool;

    fn bytes_per_pixel(&self) -> (r: i64)
        ensures
            r == self.spec_bytes_per_pixel(),
    ;

    fn pixels_per_line(&self) -> (r: i64)
        ensures
            r == self.spec_pixels_per_line(),
    ;

    fn width(&self) -> (r: i64)
        ensures
            r == self.spec_width(),
    ;

    fn height(&self) -> (r: i64)
        ensures
            r == self.spec_height(),
    ;

    /// Sets the pixel at `(x, y)`, which must lie in the visible area.
    fn write_pixel(&mut self, x: i64, y: i64, color: u32)
        requires
            old(self).wf(),
            in_x_range(old(self).spec_width() as int, old(self).spec_pixels_per_line() as int, x as int),
            in_y_range(old(self).spec_height() as int, y as int),
        ensures
            final(self).wf(),
            final(self).spec_bytes_per_pixel() == old(self).spec_bytes_per_pixel(),
            final(self).spec_pixels_per_line() == old(self).spec_pixels_per_line(),
            final(self).spec_width() == old(self).spec_width(),
            final(self).spec_height() == old(self).spec_height(),
            final(self).image() == old(self).image().insert((x as int, y as int), color),
    ;

    /// `px` is a visible column: within both the width and the line length.
    fn is_in_x_range(&self, px: i64) -> (r: bool)
        ensures
            r == in_x_range(self.spec_width() as int, self.spec_pixels_per_line() as int, px as int),
    {
        0 <= px && px < self.width().min(self.pixels_per_line())
    }

    /// `py` is a visible row.
    fn is_in_y_range(&self, py: i64) -> (r: bool)
        ensures
            r == in_y_range(self.spec_height() as int, py as int),
    {
        0 <= py && py < self.height()
    }
}

/// Column `px` is visible on a bitmap of the given width and line length.
pub open spec fn in_x_range(width: int, pixels_per_line: int, px: int) -> bool {
    0 <= px < vstd::math::min(width, pixels_per_line)
}

/// Row `py` is visible on a bitmap of the given height.
pub open spec fn in_y_range(height: int, py: int) -> bool {
    0 <= py < height
}

/// The point `(x, y)` is visible on `b`.
pub open spec fn visible<T: Bitmap>(b: T, x: int, y: int) -> bool {
    in_x_range(b.spec_width() as int, b.spec_pixels_per_line() as int, x) && in_y_range(
        b.spec_height() as int,
        y,
    )
}

/// Every visible pixel of `b` has color `color`.
pub open spec fn filled<T: Bitmap>(b: T, color: u32) -> bool {
    forall|x: int, y: int| #[trigger] visible(b, x, y) ==> b.image().dom().contains((x, y)) && b.image()[(x, y)] == color
}

/// Two bitmaps have the same geometry.
pub open spec fn same_geometry<T: Bitmap>(a: T, b: T) -> bool {
    &&& a.spec_bytes_per_pixel() == b.spec_bytes_per_pixel()
    &&& a.spec_pixels_per_line() == b.spec_pixels_per_line()
    &&& a.spec_width() == b.spec_width()
    &&& a.spec_height() == b.spec_height()
}

/// The visible points of `pts` on `b`.
pub open spec fn visible_part<T: Bitmap>(b: T, pts: Set<(int, int)>) -> Set<(int, int)> {
    pts.filter(|k: (int, int)| visible(b, k.0, k.1))
}

/// Sets the pixel at `(x, y)` to `color`; fails with "Out of Range" when the
/// point is not visible.
pub fn draw_point<T: Bitmap>(buf: &mut T, color: u32, x: i64, y: i64) -> (r: Result<()>)
    requires
        old(buf).wf(),
    ensures
        final(buf).wf(),
        same_geometry(*old(buf), *final(buf)),
        r is Ok <==> visible(*old(buf), x as int, y as int),
        r is Ok ==> final(buf).image() == old(buf).image().insert((x as int, y as int), color),
        r is Err ==> final(buf).image() == old(buf).image(),
        r matches Err(e) ==> e@ == "Out of Range"@,
{
    if buf.is_in_x_range(x) && buf.is_in_y_range(y) {
        buf.write_pixel(x, y, color);
        Ok(())
    } else {
        Err("Out of Range")
    }
}

/// The points of the `w` by `h` rectangle whose top-left corner is `(px, py)`.
pub open spec fn rect(px: int, py: int, w: int, h: int) -> Set<(int, int)> {
    Set::new(|k: (int, int)| px <= k.0 < px + w && py <= k.1 < py + h)
}

/// The value fits in an `i64`.
pub open spec fn fits_i64(v: int) -> bool {
    i64::MIN <= v <= i64::MAX
}

/// `fill_rect` accepts the rectangle: both of its corners are visible.
pub open spec fn rect_in_range<T: Bitmap>(b: T, px: int, py: int, w: int, h: int) -> bool {
    &&& in_x_range(b.spec_width() as int, b.spec_pixels_per_line() as int, px)
    &&& in_y_range(b.spec_height() as int, py)
    &&& in_x_range(b.spec_width() as int, b.spec_pixels_per_line() as int, px + w - 1)
    &&& in_y_range(b.spec_height() as int, py + h - 1)
}

/// The corner arithmetic of `fill_rect` stays within `i64` wherever it is
/// evaluated.
pub open spec fn rect_fits<T: Bitmap>(b: T, px: int, py: int, w: int, h: int) -> bool {
    &&& (in_x_range(b.spec_width() as int, b.spec_pixels_per_line() as int, px) && in_y_range(
        b.spec_height() as int,
        py,
    )) ==> fits_i64(px + w) && fits_i64(px + w - 1)
    &&& (in_x_range(b.spec_width() as int, b.spec_pixels_per_line() as int, px) && in_y_range(
        b.spec_height() as int,
        py,
    ) && in_x_range(b.spec_width() as int, b.spec_pixels_per_line() as int, px + w - 1))
        ==> fits_i64(py + h) && fits_i64(py + h - 1)
}

/// Sets the pixel at `(x, y)`, which must be visible.
fn unchecked_draw_point<T: Bitmap>(buf: &mut T, color: u32, x: i64, y: i64)
    requires
        old(buf).wf(),
        visible(*old(buf), x as int, y as int),
    ensures
        final(buf).wf(),
        same_geometry(*old(buf), *final(buf)),
        final(buf).image() == old(buf).image().insert((x as int, y as int), color),
{
    buf.write_pixel(x, y, color);
}

/// Fills the `w` by `h` rectangle at `(px, py)` with `color`; fails with
/// "Out of Range", drawing nothing, unless both corners are visible.
pub fn fill_rect<T: Bitmap>(buf: &mut T, color: u32, px: i64, py: i64, w: i64, h: i64) -> (r: Result<()>)
    requires
        old(buf).wf(),
        rect_fits(*old(buf), px as int, py as int, w as int, h as int),
    ensures
        final(buf).wf(),
        same_geometry(*old(buf), *final(buf)),
        r is Ok <==> rect_in_range(*old(buf), px as int, py as int, w as int, h as int),
        r is Ok ==> final(buf).image() == paint(old(buf).image(), rect(px as int, py as int, w as int, h as int), color),
        r is Err ==> final(buf).image() == old(buf).image(),
        r matches Err(e) ==> e@ == "Out of Range"@,
{
    if !buf.is_in_x_range(px) || !buf.is_in_y_range(py) || !buf.is_in_x_range(px + w - 1)
        || !buf.is_in_y_range(py + h - 1) {
        return Err("Out of Range");
    }
    let ghost old_image = buf.image();
    let ghost g = *buf;
    let mut y = py;
    while y < py + h
        invariant
            buf.wf(),
            same_geometry(g, *buf),
            rect_in_range(g, px as int, py as int, w as int, h as int),
            fits_i64(px + w),
            fits_i64(py + h),
            py <= y <= py + h || (h <= 0 && y == py),
            buf.image() == paint(old_image, rect(px as int, py as int, w as int, y - py), color),
        decreases py + h - y,
    {
        let mut x = px;
        while x < px + w
            invariant
                buf.wf(),
                same_geometry(g, *buf),
                rect_in_range(g, px as int, py as int, w as int, h as int),
                fits_i64(px + w),
                fits_i64(py + h),
                py <= y < py + h,
                px <= x <= px + w || (w <= 0 && x == px),
                buf.image() == paint(
                    paint(old_image, rect(px as int, py as int, w as int, y - py), color),
                    rect(px as int, y as int, x - px, 1),
                    color,
                ),
            decreases px + w - x,
        {
            unchecked_draw_point(buf, color, x, y);
            proof {
                assert(buf.image() =~= paint(
                    paint(old_image, rect(px as int, py as int, w as int, y - py), color),
                    rect(px as int, y as int, x + 1 - px, 1),
                    color,
                ));
            }
            x = x + 1;
        }
        proof {
            assert(buf.image() =~= paint(old_image, rect(px as int, py as int, w as int, y + 1 - py), color));
        }
        y = y + 1;
    }
    proof {
        assert(buf.image() =~= paint(old_image, rect(px as int, py as int, w as int, h as int), color));
    }
    Ok(())
}

/// The absolute value of `v` (as `i64::abs`), which must not be `i64::MIN`.
fn i64_abs(v: i64) -> (r: i64)
    requires
        v != i64::MIN,
    ensures
        r == abs_value(v as int),
{
    if v < 0 {
        -v
    } else {
        v
    }
}

/// 1, 0 or -1 according to the sign of `v` (as `i64::signum`).
fn i64_signum(v: i64) -> (r: i64)
    ensures
        r == sign(v as int),
{
    if v > 0 {
        1
    } else if v < 0 {
        -1
    } else {
        0
    }
}

/// The absolute value of `v`.
pub open spec fn abs_value(v: int) -> int {
    if v < 0 {
        -v
    } else {
        v
    }
}

/// The sign of `v`: 1, 0 or -1.
pub open spec fn sign(v: int) -> int {
    if v > 0 {
        1
    } else if v < 0 {
        -1
    } else {
        0
    }
}

/// The number of points `draw_line` draws from `(x0, y0)` towards `(x1, y1)`:
/// one per step along the longer axis, the end point excluded.
pub open spec fn line_steps(x0: int, y0: int, x1: int, y1: int) -> int {
    let dx = abs_value(x1 - x0);
    let dy = abs_value(y1 - y0);
    if dx >= dy {
        dx
    } else {
        dy
    }
}

/// The `k`-th point of the line from `(x0, y0)` towards `(x1, y1)`: `k`
/// steps along the longer axis and the rounded proportional offset along
/// the other.
pub open spec fn line_point(x0: int, y0: int, x1: int, y1: int, k: int) -> (int, int) {
    let dx = abs_value(x1 - x0);
    let dy = abs_value(y1 - y0);
    let sx = sign(x1 - x0);
    let sy = sign(y1 - y0);
    if dx >= dy {
        (x0 + k * sx, y0 + slope_value(dx, dy, k) * sy)
    } else {
        (x0 + slope_value(dy, dx, k) * sx, y0 + k * sy)
    }
}

/// The first `m` points of the line.
pub open spec fn line_points(x0: int, y0: int, x1: int, y1: int, m: int) -> Set<(int, int)> {
    Set::new(|p: (int, int)| exists|k: int| 0 <= k < m && p == #[trigger] line_point(x0, y0, x1, y1, k))
}

/// Both end points of the line are visible on `b`.
pub open spec fn line_args_in_range<T: Bitmap>(b: T, x0: int, y0: int, x1: int, y1: int) -> bool {
    &&& in_x_range(b.spec_width() as int, b.spec_pixels_per_line() as int, x0)
    &&& in_y_range(b.spec_height() as int, y0)
    &&& in_x_range(b.spec_width() as int, b.spec_pixels_per_line() as int, x1)
    &&& in_y_range(b.spec_height() as int, y1)
}

/// The interpolation arithmetic of `draw_line` stays within `i64`.
pub open spec fn line_fits(x0: int, y0: int, x1: int, y1: int) -> bool {
    let dx = abs_value(x1 - x0);
    let dy = abs_value(y1 - y0);
    let da = vstd::math::max(dx, dy);
    let db = vstd::math::min(dx, dy);
    da >= 1 ==> 2 * db * (da - 1) + da <= i64::MAX
}

/// The image after `draw_line` on a bitmap with the geometry of `b` and
/// the pixels `m`: unchanged when an end point is not visible, else every
/// point of the line set to `color`.
pub open spec fn line_image<T: Bitmap>(b: T, m: Image, x0: int, y0: int, x1: int, y1: int, color: u32) -> Image {
    if line_args_in_range(b, x0, y0, x1, y1) {
        paint(m, line_points(x0, y0, x1, y1, line_steps(x0, y0, x1, y1)), color)
    } else {
        m
    }
}

/// Every point of a line lies between its end points, on both axes.
proof fn lemma_line_point_between(x0: int, y0: int, x1: int, y1: int, k: int)
    requires
        0 <= k < line_steps(x0, y0, x1, y1),
        line_fits(x0, y0, x1, y1),
    ensures
        vstd::math::min(x0, x1) <= line_point(x0, y0, x1, y1, k).0 <= vstd::math::max(x0, x1),
        vstd::math::min(y0, y1) <= line_point(x0, y0, x1, y1, k).1 <= vstd::math::max(y0, y1),
{
    let dx = abs_value(x1 - x0);
    let dy = abs_value(y1 - y0);
    if dx >= dy {
        lemma_slope_bounds(dx, dy, k);
    } else {
        lemma_slope_bounds(dy, dx, k);
    }
}

proof fn lemma_slope_bounds(da: int, db: int, ia: int)
    requires
        0 <= db <= da,
        0 <= ia < da,
        2 * db * (da - 1) + da <= i64::MAX,
    ensures
        slope_point_fits(da, db, ia),
        slope_point(da, db, ia) == Some(slope_value(da, db, ia)),
        0 <= slope_value(da, db, ia) <= db,
{
    assert(0 <= 2 * db * ia <= 2 * db * (da - 1)) by (nonlinear_arith)
        requires
            0 <= db,
            0 <= ia <= da - 1;
    if da >= 2 {
        assert(2 * db <= 2 * db * (da - 1)) by (nonlinear_arith)
            requires
                0 <= db,
                2 <= da;
    }
    let n = 2 * db * ia + da;
    assert(n <= da * (2 * db + 1)) by (nonlinear_arith)
        requires
            n == 2 * db * ia + da,
            0 <= ia < da,
            0 <= db;
    assert(0 <= n / da <= 2 * db + 1) by (nonlinear_arith)
        requires
            0 <= n <= da * (2 * db + 1),
            da > 0;
}

/// Draws the line from `(x0, y0)` towards `(x1, y1)`, end point excluded.
///
/// Fails with "Out of Range", drawing nothing, when an end point is not
/// visible.
fn draw_line<T: Bitmap>(buf: &mut T, color: u32, x0: i64, y0: i64, x1: i64, y1: i64) -> (r: Result<()>)
    requires
        old(buf).wf(),
        line_args_in_range(*old(buf), x0 as int, y0 as int, x1 as int, y1 as int) ==> line_fits(
            x0 as int,
            y0 as int,
            x1 as int,
            y1 as int,
        ),
    ensures
        final(buf).wf(),
        same_geometry(*old(buf), *final(buf)),
        r matches Err(e) ==> e@ == "Out of Range"@,
        r is Ok <==> line_args_in_range(*old(buf), x0 as int, y0 as int, x1 as int, y1 as int),
        final(buf).image() == line_image(*old(buf), old(buf).image(), x0 as int, y0 as int, x1 as int, y1 as int, color),
{
    if !buf.is_in_x_range(x0) || !buf.is_in_y_range(y0) || !buf.is_in_x_range(x1) || !buf.is_in_y_range(y1) {
        return Err("Out of Range");
    }
    let dx = i64_abs(x1 - x0);
    let sx = i64_signum(x1 - x0);
    let dy = i64_abs(y1 - y0);
    let sy = i64_signum(y1 - y0);
    let ghost g = *old(buf);
    let ghost old_image = g.image();
    let ghost n = line_steps(x0 as int, y0 as int, x1 as int, y1 as int);
    let major = if dx >= dy { dx } else { dy };
    let minor = if dx >= dy { dy } else { dx };
    let mut k: i64 = 0;
    while k < major
        invariant
            buf.wf(),
            g == *old(buf),
            old_image == g.image(),
            same_geometry(g, *buf),
            line_args_in_range(g, x0 as int, y0 as int, x1 as int, y1 as int),
            line_fits(x0 as int, y0 as int, x1 as int, y1 as int),
            dx == abs_value(x1 - x0),
            dy == abs_value(y1 - y0),
            sx == sign(x1 - x0),
            sy == sign(y1 - y0),
            major == (if dx >= dy { dx } else { dy }),
            minor == (if dx >= dy { dy } else { dx }),
            n == major,
            0 <= k <= major,
            buf.image() == paint(old_image, line_points(x0 as int, y0 as int, x1 as int, y1 as int, k as int), color),
        decreases major - k,
    {
        proof {
            lemma_slope_bounds(major as int, minor as int, k as int);
        }
        let q = match calc_slope_point(major, minor, k) {
            Some(v) => v,
            None => {
                k = k + 1;
                continue;
            },
        };
        let (px, py) = if dx >= dy {
            (x0 + k * sx, y0 + q * sy)
        } else {
            (x0 + q * sx, y0 + k * sy)
        };
        assert((px as int, py as int) == line_point(x0 as int, y0 as int, x1 as int, y1 as int, k as int));
        proof {
            lemma_line_point_between(x0 as int, y0 as int, x1 as int, y1 as int, k as int);
        }
        let res = draw_point(buf, color, px, py);
        if res.is_err() {
            return res;
        }
        proof {
            assert(buf.image() =~= paint(old_image, line_points(x0 as int, y0 as int, x1 as int, y1 as int, k + 1), color)) by {
                assert forall|p: (int, int)| line_points(x0 as int, y0 as int, x1 as int, y1 as int, k + 1).contains(p)
                    <==> line_points(x0 as int, y0 as int, x1 as int, y1 as int, k as int).contains(p) || p == (px as int, py as int) by {
                    if line_points(x0 as int, y0 as int, x1 as int, y1 as int, k + 1).contains(p) {
                        let j = choose|j: int| 0 <= j < k + 1 && p == #[trigger] line_point(x0 as int, y0 as int, x1 as int, y1 as int, j);
                        if j < k {
                            assert(line_points(x0 as int, y0 as int, x1 as int, y1 as int, k as int).contains(p));
                        }
                    }
                }
            }
        }
        k = k + 1;
    }
    Ok(())
}

/// The pixels set by the glyph of code `k` drawn with its top-left corner
/// at `(x, y)`, among its first `n` cells (row by row).
pub open spec fn glyph_points_before(font: Font, k: int, x: int, y: int, n: int) -> Set<(int, int)> {
    Set::new(
        |p: (int, int)|
            exists|dy: int, dx: int|
                0 <= dy < 16 && 0 <= dx < 8 && dy * 8 + dx < n && #[trigger] font.cell(k, dy, dx) == '*' && p == (
                    x + dx,
                    y + dy,
                ),
    )
}

/// The pixels set by the glyph of code `k` drawn at `(x, y)`.
pub open spec fn glyph_points(font: Font, k: int, x: int, y: int) -> Set<(int, int)> {
    glyph_points_before(font, k, x, y, 128)
}

/// The image after drawing character `c` at `(x, y)` on a bitmap with the
/// geometry of `b` and the pixels `m`: its glyph's `*` cells that are
/// visible are set to `color`; characters whose code is not below 256 draw
/// nothing.
pub open spec fn char_image<T: Bitmap>(b: T, m: Image, x: int, y: int, color: u32, c: char, font: Font) -> Image {
    if (c as u32) < 256 {
        paint(m, visible_part(b, glyph_points(font, c as int, x, y)), color)
    } else {
        m
    }
}

/// The coordinates of every set cell of `c`'s glyph drawn at `(x, y)` fit
/// in an `i64`.
pub open spec fn glyph_fits(font: Font, c: char, x: int, y: int) -> bool {
    (c as u32) < 256 ==> forall|dy: int, dx: int|
        0 <= dy < 16 && 0 <= dx < 8 && #[trigger] font.cell(c as int, dy, dx) == '*' ==> fits_i64(x + dx) && fits_i64(y + dy)
}

/// Draws character `c` with its top-left corner at `(x, y)`: every visible
/// pixel under a `*` cell of its glyph gets `color`; the other pixels and
/// the invisible part of the glyph are left alone.
pub fn draw_font_fg<T: Bitmap>(buf: &mut T, x: i64, y: i64, color: u32, c: char, font: &Font)
    requires
        old(buf).wf(),
        glyph_fits(*font, c, x as int, y as int),
    ensures
        final(buf).wf(),
        same_geometry(*old(buf), *final(buf)),
        final(buf).image() == char_image(*old(buf), old(buf).image(), x as int, y as int, color, c, *font),
{
    if let Some(glyph) = lookup_font(font, c) {
        let ghost g = *old(buf);
        let ghost k = c as int;
        let ghost old_image = g.image();
        let mut dy: usize = 0;
        while dy < 16
            invariant
                buf.wf(),
                g == *old(buf),
                old_image == g.image(),
                same_geometry(g, *buf),
                k == c as int,
                (c as u32) < 256,
                dy <= 16,
                glyph_fits(*font, c, x as int, y as int),
                forall|yy: int, xx: int| 0 <= yy < 16 && 0 <= xx < 8 ==> #[trigger] glyph[yy][xx] == font.cell(k, yy, xx),
                buf.image() == paint(old_image, visible_part(g, glyph_points_before(*font, k, x as int, y as int, dy * 8)), color),
            decreases 16 - dy,
        {
            let row = glyph[dy];
            let mut dx: usize = 0;
            while dx < 8
                invariant
                    buf.wf(),
                    g == *old(buf),
                    old_image == g.image(),
                    same_geometry(g, *buf),
                    k == c as int,
                    (c as u32) < 256,
                    dy < 16,
                    dx <= 8,
                    glyph_fits(*font, c, x as int, y as int),
                    row == glyph[dy as int],
                    forall|yy: int, xx: int| 0 <= yy < 16 && 0 <= xx < 8 ==> #[trigger] glyph[yy][xx] == font.cell(k, yy, xx),
                    buf.image() == paint(old_image, visible_part(g, glyph_points_before(*font, k, x as int, y as int, dy * 8 + dx)), color),
                decreases 8 - dx,
            {
                let pixel = row[dx];
                let ghost before = glyph_points_before(*font, k, x as int, y as int, dy * 8 + dx);
                let ghost after = glyph_points_before(*font, k, x as int, y as int, dy * 8 + dx + 1);
                assert(pixel == font.cell(k, dy as int, dx as int));
                if pixel == '*' {
                    let px = x + dx as i64;
                    let py = y + dy as i64;
                    let _ = draw_point(buf, color, px, py);
                    proof {
                        assert(font.cell(k, dy as int, dx as int) == '*');
                        assert(after =~= before.insert((px as int, py as int)));
                        assert(buf.image() =~= paint(old_image, visible_part(g, after), color));
                    }
                } else {
                    proof {
                        assert(after =~= before) by {
                            assert forall|p: (int, int)| after.contains(p) implies before.contains(p) by {
                                let (ddy, ddx) = choose|ddy: int, ddx: int|
                                    0 <= ddy < 16 && 0 <= ddx < 8 && ddy * 8 + ddx < dy * 8 + dx + 1 && #[trigger] font.cell(k, ddy, ddx) == '*'
                                        && p == (x + ddx, y + ddy);
                                if ddy * 8 + ddx == dy * 8 + dx {
                                    assert(ddy == dy && ddx == dx);
                                }
                            }
                        }
                    }
                }
                dx = dx + 1;
            }
            dy = dy + 1;
        }
    } else {
        assert(buf.image() =~= char_image(*old(buf), old(buf).image(), x as int, y as int, color, c, *font));
    }
}

/// The image after drawing the first `n` characters of `chars` side by side,
/// 8 pixels apart, starting at `(x, y)`.
pub open spec fn text_image<T: Bitmap>(b: T, m: Image, x: int, y: int, color: u32, chars: Seq<char>, font: Font, n: int) -> Image
    decreases n,
{
    if n <= 0 {
        m
    } else {
        char_image(b, text_image(b, m, x, y, color, chars, font, n - 1), x + (n - 1) * 8, y, color, chars[n - 1], font)
    }
}

/// The coordinates computed while drawing `chars` at `(x, y)` fit in an `i64`.
pub open spec fn text_fits(font: Font, chars: Seq<char>, x: int, y: int) -> bool {
    forall|i: int|
        0 <= i < chars.len() ==> fits_i64(i * 8) && fits_i64(x + i * 8) && glyph_fits(
            font,
            #[trigger] chars[i],
            x + i * 8,
            y,
        )
}

/// Draws the characters of `s` side by side, 8 pixels apart, the first one
/// with its top-left corner at `(x, y)`.
pub fn draw_str_fg<T: Bitmap>(buf: &mut T, x: i64, y: i64, color: u32, s: &str, font: &Font)
    requires
        old(buf).wf(),
        text_fits(*font, s@, x as int, y as int),
    ensures
        final(buf).wf(),
        same_geometry(*old(buf), *final(buf)),
        final(buf).image() == text_image(*old(buf), old(buf).image(), x as int, y as int, color, s@, *font, s@.len() as int),
{
    let ghost g = *old(buf);
    let n = s.unicode_len();
    let mut i: usize = 0;
    while i < n
        invariant
            buf.wf(),
            g == *old(buf),
            same_geometry(g, *buf),
            n == s@.len(),
            i <= n,
            text_fits(*font, s@, x as int, y as int),
            buf.image() == text_image(g, g.image(), x as int, y as int, color, s@, *font, i as int),
        decreases n - i,
    {
        let c = s.get_char(i);
        proof {
            assert(fits_i64(i * 8) && fits_i64(x + i * 8) && glyph_fits(*font, s@[i as int], x + i * 8, y as int));
            assert(i as i64 == i);
        }
        let ghost before = *buf;
        draw_font_fg(buf, x + i as i64 * 8, y, color, c, font);
        proof {
            assert(char_image(before, before.image(), x + i * 8, y as int, color, c, *font)
                == char_image(g, before.image(), x + i * 8, y as int, color, c, *font)) by {
                assert(visible_part(before, glyph_points(*font, c as int, x + i * 8, y as int))
                    =~= visible_part(g, glyph_points(*font, c as int, x + i * 8, y as int)));
            }
        }
        i = i + 1;
    }
}

/// The color of the `i`-th square of the test pattern's left column.
pub open spec fn pattern_color(i: int) -> u32 {
    if i == 0 {
        0x000000
    } else if i == 1 {
        0xff0000
    } else if i == 2 {
        0x00ff00
    } else {
        0x0000ff
    }
}

/// The image after the first `n` rows of squares of the test pattern: row
/// `i` is a 64-pixel square of `pattern_color(i)` at `(left, 64 * i)` and
/// one of its bitwise complement right of it.
pub open spec fn pattern_fills(m: Image, left: int, n: int) -> Image
    decreases n,
{
    if n <= 0 {
        m
    } else {
        let prev = pattern_fills(m, left, n - 1);
        let y = (n - 1) * 64;
        paint(
            paint(prev, rect(left, y, 64, 64), pattern_color(n - 1)),
            rect(left + 64, y, 64, 64),
            !pattern_color(n - 1),
        )
    }
}

/// The `i`-th corner of the test pattern's 128-pixel square, relative to
/// its top-left corner.
pub open spec fn pattern_corner(i: int) -> (int, int) {
    if i == 0 {
        (0, 0)
    } else if i == 1 {
        (0, 128)
    } else if i == 2 {
        (128, 0)
    } else {
        (128, 128)
    }
}

/// The image after the first `n` white lines of the test pattern: line
/// `4 * i + j` goes from corner `i` towards corner `j`.
pub open spec fn pattern_lines<T: Bitmap>(b: T, m: Image, left: int, n: int) -> Image
    decreases n,
{
    if n <= 0 {
        m
    } else {
        let prev = pattern_lines(b, m, left, n - 1);
        let p0 = pattern_corner((n - 1) / 4);
        let p1 = pattern_corner((n - 1) % 4);
        line_image(b, prev, left + p0.0, p0.1, left + p1.0, p1.1, 0xffffff)
    }
}

/// The image after `draw_test_pattern` on a bitmap with the geometry of `b`
/// and the pixels `m`.
pub open spec fn test_pattern_image<T: Bitmap>(b: T, m: Image, font: Font) -> Image {
    let left = b.spec_width() - 129;
    let with_lines = pattern_lines(b, pattern_fills(m, left, 4), left, 16);
    let digits = "0123456789"@;
    let letters = "ABCDEF"@;
    let with_digits = text_image(b, with_lines, left, 256, 0x00ff00, digits, font, digits.len() as int);
    text_image(b, with_digits, left, 272, 0x00ff00, letters, font, letters.len() as int)
}

proof fn lemma_small_text_fits(font: Font, chars: Seq<char>, x: int, y: int)
    requires
        chars.len() <= 16,
        0 <= x,
        x + 16 * 8 <= i64::MAX,
        0 <= y,
        y + 16 <= i64::MAX,
    ensures
        text_fits(font, chars, x, y),
{
}

/// Draws a test pattern at the right edge of the bitmap: four rows of two
/// colored squares, white lines between the corners of the 128-pixel square
/// they form, then the digits and the letters A to F below.
pub fn draw_test_pattern<T: Bitmap>(buf: &mut T, font: &Font)
    requires
        old(buf).wf(),
        129 <= old(buf).spec_width(),
        old(buf).spec_width() - 2 < old(buf).spec_pixels_per_line(),
        256 <= old(buf).spec_height(),
    ensures
        final(buf).wf(),
        same_geometry(*old(buf), *final(buf)),
        final(buf).image() == test_pattern_image(*old(buf), old(buf).image(), *font),
{
    let ghost g = *old(buf);
    let w: i64 = 128;
    let left = buf.width() - w - 1;
    let colors: [u32; 4] = [0x000000, 0xff0000, 0x00ff00, 0x0000ff];
    let h: i64 = 64;
    let mut i: usize = 0;
    while i < 4
        invariant
            buf.wf(),
            g == *old(buf),
            same_geometry(g, *buf),
            129 <= g.spec_width(),
            g.spec_width() - 2 < g.spec_pixels_per_line(),
            256 <= g.spec_height(),
            left == g.spec_width() - 129,
            h == 64,
            i <= 4,
            forall|j: int| 0 <= j < 4 ==> #[trigger] colors[j] == pattern_color(j),
            buf.image() == pattern_fills(g.image(), left as int, i as int),
        decreases 4 - i,
    {
        let c = colors[i];
        let y = i as i64 * h;
        fill_rect(buf, c, left, y, h, h).expect("fill_rect failed");
        fill_rect(buf, !c, left + h, y, h, h).expect("fill_rect failed");
        i = i + 1;
    }
    let points: [(i64, i64); 4] = [(0, 0), (0, w), (w, 0), (w, w)];
    let mut a: usize = 0;
    while a < 4
        invariant
            buf.wf(),
            g == *old(buf),
            same_geometry(g, *buf),
            129 <= g.spec_width(),
            256 <= g.spec_height(),
            left == g.spec_width() - 129,
            a <= 4,
            forall|j: int| 0 <= j < 4 ==> #[trigger] points[j] == (pattern_corner(j).0 as i64, pattern_corner(j).1 as i64),
            buf.image() == pattern_lines(g, pattern_fills(g.image(), left as int, 4), left as int, 4 * a),
        decreases 4 - a,
    {
        let (x0, y0) = points[a];
        let mut b: usize = 0;
        while b < 4
            invariant
                buf.wf(),
                g == *old(buf),
                same_geometry(g, *buf),
                129 <= g.spec_width(),
                256 <= g.spec_height(),
                left == g.spec_width() - 129,
                a < 4,
                b <= 4,
                (x0 as int, y0 as int) == pattern_corner(a as int),
                forall|j: int| 0 <= j < 4 ==> #[trigger] points[j] == (pattern_corner(j).0 as i64, pattern_corner(j).1 as i64),
                buf.image() == pattern_lines(g, pattern_fills(g.image(), left as int, 4), left as int, 4 * a + b),
            decreases 4 - b,
        {
            let (x1, y1) = points[b];
            let ghost before = *buf;
            proof {
                lemma_short_line_fits(left + x0, y0 as int, left + x1, y1 as int);
            }
            let _ = draw_line(buf, 0xffffff, left + x0, y0, left + x1, y1);
            proof {
                let n = 4 * a + b + 1;
                assert((n - 1) / 4 == a as int && (n - 1) % 4 == b as int);
                lemma_line_image_geometry(before, g, before.image(), left + x0, y0 as int, left + x1, y1 as int, 0xffffff);
            }
            b = b + 1;
        }
        a = a + 1;
    }
    let digits = "0123456789";
    let letters = "ABCDEF";
    proof {
        reveal_strlit("0123456789");
        reveal_strlit("ABCDEF");
        lemma_small_text_fits(*font, digits@, left as int, h * 4);
        lemma_small_text_fits(*font, letters@, left as int, h * 4 + 16);
    }
    let ghost before_digits = *buf;
    draw_str_fg(buf, left, h * colors.len() as i64, 0x00ff00, digits, font);
    proof {
        lemma_text_image_geometry(before_digits, g, before_digits.image(), left as int, 256, 0x00ff00, digits@, *font, digits@.len() as int);
    }
    let ghost before_letters = *buf;
    draw_str_fg(buf, left, h * colors.len() as i64 + 16, 0x00ff00, letters, font);
    proof {
        lemma_text_image_geometry(before_letters, g, before_letters.image(), left as int, 272, 0x00ff00, letters@, *font, letters@.len() as int);
    }
}

proof fn lemma_short_line_fits(x0: int, y0: int, x1: int, y1: int)
    requires
        abs_value(x1 - x0) <= 128,
        abs_value(y1 - y0) <= 128,
    ensures
        line_fits(x0, y0, x1, y1),
{
    let da = vstd::math::max(abs_value(x1 - x0), abs_value(y1 - y0));
    let db = vstd::math::min(abs_value(x1 - x0), abs_value(y1 - y0));
    if da >= 1 {
        assert(2 * db * (da - 1) + da <= 2 * 128 * 127 + 128) by (nonlinear_arith)
            requires
                0 <= db <= 128,
                1 <= da <= 128;
    }
}

/// `line_image` depends only on the geometry of the bitmap it is given.
proof fn lemma_line_image_geometry<T: Bitmap>(b1: T, b2: T, m: Image, x0: int, y0: int, x1: int, y1: int, color: u32)
    requires
        same_geometry(b1, b2),
    ensures
        line_image(b1, m, x0, y0, x1, y1, color) == line_image(b2, m, x0, y0, x1, y1, color),
{
}

/// `text_image` depends only on the geometry of the bitmap it is given.
proof fn lemma_text_image_geometry<T: Bitmap>(b1: T, b2: T, m: Image, x: int, y: int, color: u32, chars: Seq<char>, font: Font, n: int)
    requires
        same_geometry(b1, b2),
    ensures
        text_image(b1, m, x, y, color, chars, font, n) == text_image(b2, m, x, y, color, chars, font, n),
    decreases n,
{
    if n > 0 {
        lemma_text_image_geometry(b1, b2, m, x, y, color, chars, font, n - 1);
        let c = chars[n - 1];
        assert(visible_part(b1, glyph_points(font, c as int, x + (n - 1) * 8, y))
            =~= visible_part(b2, glyph_points(font, c as int, x + (n - 1) * 8, y)));
    }
}

/// Drawing a character whose code is below 256 at `(x, y)` sets to the
/// color every visible pixel `(x + dx, y + dy)`, `0 <= dx < 8`,
/// `0 <= dy < 16` (all 16 rows of the glyph), whose glyph cell is `*`, and
/// leaves every other pixel as it was; a character whose code is not below
/// 256 changes nothing.
pub proof fn lemma_char_image_cells<T: Bitmap>(b: T, m: Image, x: int, y: int, color: u32, c: char, font: Font)
    ensures
        (c as u32) < 256 ==> forall|dx: int, dy: int|
            0 <= dx < 8 && 0 <= dy < 16 && #[trigger] font.cell(c as int, dy, dx) == '*' && visible(b, x + dx, y + dy)
                ==> char_image(b, m, x, y, color, c, font).dom().contains((x + dx, y + dy))
                && char_image(b, m, x, y, color, c, font)[(x + dx, y + dy)] == color,
        forall|p: (int, int)|
            m.dom().contains(p) && !((c as u32) < 256 && x <= p.0 < x + 8 && y <= p.1 < y + 16 && font.cell(
                c as int,
                p.1 - y,
                p.0 - x,
            ) == '*' && visible(b, p.0, p.1)) ==> #[trigger] char_image(b, m, x, y, color, c, font).dom().contains(p)
                && char_image(b, m, x, y, color, c, font)[p] == m[p],
        forall|p: (int, int)| #[trigger] char_image(b, m, x, y, color, c, font).dom().contains(p) ==> m.dom().contains(p)
            || visible(b, p.0, p.1),
{
    if (c as u32) < 256 {
        let pts = visible_part(b, glyph_points(font, c as int, x, y));
        assert forall|dx: int, dy: int|
            0 <= dx < 8 && 0 <= dy < 16 && #[trigger] font.cell(c as int, dy, dx) == '*' && visible(b, x + dx, y + dy)
                implies pts.contains((x + dx, y + dy)) by {
            assert(dy * 8 + dx < 128) by (nonlinear_arith)
                requires
                    0 <= dx < 8,
                    0 <= dy < 16;
            assert(glyph_points(font, c as int, x, y).contains((x + dx, y + dy)));
        }
        assert forall|p: (int, int)| pts.contains(p) implies x <= p.0 < x + 8 && y <= p.1 < y + 16 && font.cell(
            c as int,
            p.1 - y,
            p.0 - x,
        ) == '*' && visible(b, p.0, p.1) by {
            let (dy, dx) = choose|dy: int, dx: int|
                0 <= dy < 16 && 0 <= dx < 8 && dy * 8 + dx < 128 && #[trigger] font.cell(c as int, dy, dx) == '*'
                    && p == (x + dx, y + dy);
        }
    }
}

/// The first `n` characters of a text drawn alone or drawn as the start of
/// a longer text give the same image.
proof fn lemma_text_image_prefix<T: Bitmap>(b: T, m: Image, x: int, y: int, color: u32, s1: Seq<char>, s2: Seq<char>, font: Font, n: int)
    requires
        0 <= n <= s1.len(),
    ensures
        text_image(b, m, x, y, color, s1 + s2, font, n) == text_image(b, m, x, y, color, s1, font, n),
    decreases n,
{
    if n > 0 {
        lemma_text_image_prefix(b, m, x, y, color, s1, s2, font, n - 1);
        assert((s1 + s2)[n - 1] == s1[n - 1]);
    }
}

/// Drawing the text `s1 + s2` at `(x, y)` leaves the same image as drawing
/// `s1` at `(x, y)` and then `s2` just after it, 8 pixels per character of
/// `s1` further right, on a bitmap of the same geometry.
pub proof fn lemma_text_concat<T: Bitmap>(b1: T, b2: T, m: Image, x: int, y: int, color: u32, s1: Seq<char>, s2: Seq<char>, font: Font)
    requires
        same_geometry(b1, b2),
    ensures
        text_image(b1, m, x, y, color, s1 + s2, font, (s1.len() + s2.len()) as int) == text_image(
            b2,
            text_image(b1, m, x, y, color, s1, font, s1.len() as int),
            x + 8 * s1.len(),
            y,
            color,
            s2,
            font,
            s2.len() as int,
        ),
{
    let first = text_image(b1, m, x, y, color, s1, font, s1.len() as int);
    lemma_text_concat_upto(b1, m, x, y, color, s1, s2, font, s2.len() as int);
    lemma_text_image_geometry(b1, b2, first, x + 8 * s1.len(), y, color, s2, font, s2.len() as int);
}

proof fn lemma_text_concat_upto<T: Bitmap>(b: T, m: Image, x: int, y: int, color: u32, s1: Seq<char>, s2: Seq<char>, font: Font, n: int)
    requires
        0 <= n <= s2.len(),
    ensures
        text_image(b, m, x, y, color, s1 + s2, font, s1.len() + n) == text_image(
            b,
            text_image(b, m, x, y, color, s1, font, s1.len() as int),
            x + 8 * s1.len(),
            y,
            color,
            s2,
            font,
            n,
        ),
    decreases n,
{
    if n == 0 {
        lemma_text_image_prefix(b, m, x, y, color, s1, s2, font, s1.len() as int);
    } else {
        lemma_text_concat_upto(b, m, x, y, color, s1, s2, font, n - 1);
        assert((s1 + s2)[s1.len() + n - 1] == s2[n - 1]);
        assert(x + (s1.len() + n - 1) * 8 == x + 8 * s1.len() + (n - 1) * 8);
    }
}

/// The interpolated offset of a line never goes back and advances by at
/// most one pixel per step along the major axis.
pub proof fn lemma_slope_steps(da: int, db: int, i: int)
    requires
        0 <= db <= da,
        0 <= i < da,
    ensures
        slope_point(da, db, i) is Some,
        slope_point(da, db, i + 1) is Some,
        slope_point(da, db, i)->Some_0 <= slope_point(da, db, i + 1)->Some_0,
        slope_point(da, db, i + 1)->Some_0 <= slope_point(da, db, i)->Some_0 + 1,
{
    let n = 2 * db * i + da;
    let n2 = 2 * db * (i + 1) + da;
    assert(0 <= n) by (nonlinear_arith)
        requires
            0 <= db,
            0 <= i,
            0 < da,
            n == 2 * db * i + da;
    assert(n2 == n + 2 * db) by (nonlinear_arith)
        requires
            n == 2 * db * i + da,
            n2 == 2 * db * (i + 1) + da;
    vstd::arithmetic::div_mod::lemma_div_denominator(n, da, 2);
    vstd::arithmetic::div_mod::lemma_div_denominator(n2, da, 2);
    vstd::arithmetic::div_mod::lemma_div_is_ordered(n, n2, 2 * da);
    vstd::arithmetic::div_mod::lemma_div_is_ordered(n2, n + 2 * da, 2 * da);
    vstd::arithmetic::div_mod::lemma_hoist_over_denominator(n, 1, (2 * da) as nat);
    assert(slope_value(da, db, i) == n / (2 * da));
    assert(slope_value(da, db, i + 1) == n2 / (2 * da));
}

/// The interpolated offset of step `i` is `db * i / da` rounded to the
/// nearest integer (halves rounded up): it lies within half a pixel of the
/// exact line. It starts at 0 and reaches `db` at step `da`.
pub proof fn lemma_slope_rounds_to_nearest(da: int, db: int, i: int)
    requires
        0 <= db <= da,
        0 < da,
        0 <= i <= da,
    ensures
        slope_point(da, db, i) is Some,
        2 * db * i - da < 2 * da * slope_point(da, db, i)->Some_0 <= 2 * db * i + da,
        slope_point(da, db, 0) == Some(0int),
        slope_point(da, db, da) == Some(db),
{
    let n = 2 * db * i + da;
    assert(0 <= n) by (nonlinear_arith)
        requires
            0 <= db,
            0 <= i,
            0 < da,
            n == 2 * db * i + da;
    vstd::arithmetic::div_mod::lemma_div_denominator(n, da, 2);
    let q = n / (2 * da);
    vstd::arithmetic::div_mod::lemma_fundamental_div_mod(n, 2 * da);
    assert(slope_value(da, db, i) == q);
    assert(2 * db * i - da < 2 * da * q <= 2 * db * i + da) by (nonlinear_arith)
        requires
            n == 2 * db * i + da,
            n == (2 * da) * q + n % (2 * da),
            0 <= n % (2 * da) < 2 * da;
    let n0 = da;
    vstd::arithmetic::div_mod::lemma_div_denominator(n0, da, 2);
    assert(da / (2 * da) == 0) by {
        vstd::arithmetic::div_mod::lemma_basic_div(da, 2 * da);
    }
    assert(2 * db * 0 + da == da);
    assert(slope_value(da, db, 0) == 0);
    let nd = 2 * db * da + da;
    assert(nd == (2 * da) * db + da) by (nonlinear_arith)
        requires
            nd == 2 * db * da + da;
    vstd::arithmetic::div_mod::lemma_div_denominator(nd, da, 2);
    vstd::arithmetic::div_mod::lemma_fundamental_div_mod_converse(nd, 2 * da, db, da);
    assert(slope_value(da, db, da) == db);
}

/// A bitmap held in memory: pixels stored line by line, `pixels_per_line`
/// pixels per line. Its image holds every stored pixel, the visible ones
/// and those of each line beyond the width.
pub struct FrameBuffer {
    bytes_per_pixel: i64,
    pixels_per_line: i64,
    width: i64,
    height: i64,
    buf: Vec<u32>,
}

impl FrameBuffer {
    /// `(x, y)` is a cell of the buffer: within a line, within the height.
    spec fn stored_at(&self, x: int, y: int) -> bool {
        0 <= x < self.pixels_per_line && 0 <= y < self.height
    }

    /// A black frame buffer of the given geometry.
    pub fn new(width: i64, height: i64, pixels_per_line: i64, bytes_per_pixel: i64) -> (r: Option<FrameBuffer>)
        ensures
            r is Some <==> 0 <= width && 0 <= height && 0 <= pixels_per_line
                && pixels_per_line * height <= usize::MAX,
            r matches Some(f) ==> {
                &&& f.wf()
                &&& f.spec_width() == width
                &&& f.spec_height() == height
                &&& f.spec_pixels_per_line() == pixels_per_line
                &&& f.spec_bytes_per_pixel() == bytes_per_pixel
                &&& filled(f, 0)
                &&& f.image() == Map::new(
                    |k: (int, int)| 0 <= k.0 < pixels_per_line && 0 <= k.1 < height,
                    |k: (int, int)| 0u32,
                )
            },
    {
        if width < 0 || height < 0 || pixels_per_line < 0 {
            return None;
        }
        proof {
            assert((pixels_per_line as u128) * (height as u128) <= 0x7fff_ffff_ffff_ffff * 0x7fff_ffff_ffff_ffff) by (nonlinear_arith)
                requires
                    0 <= pixels_per_line <= 0x7fff_ffff_ffff_ffff,
                    0 <= height <= 0x7fff_ffff_ffff_ffff;
        }
        let n = (pixels_per_line as u128) * (height as u128);
        if n > usize::MAX as u128 {
            return None;
        }
        let len = n as usize;
        assert(len == pixels_per_line * height);
        let mut buf: Vec<u32> = Vec::new();
        let mut i: usize = 0;
        while i < len
            invariant
                i <= len,
                buf@.len() == i,
                forall|k: int| 0 <= k < i ==> buf@[k] == 0,
            decreases len - i,
        {
            buf.push(0);
            i = i + 1;
        }
        let f = FrameBuffer { bytes_per_pixel, pixels_per_line, width, height, buf };
        assert(f.wf());
        proof {
            assert forall|x: int, y: int| #[trigger] visible(f, x, y) implies f.image().dom().contains((x, y)) && f.image()[(x, y)] == 0 by {
                lemma_index_in_buffer(pixels_per_line as int, height as int, x, y);
                assert(f.buf@[y * pixels_per_line + x] == 0);
            }
            assert(filled(f, 0));
            assert forall|k: (int, int)| f.image().dom().contains(k) implies f.image()[k] == 0u32 by {
                lemma_index_in_buffer(pixels_per_line as int, height as int, k.0, k.1);
            }
            assert(f.image() =~= Map::new(
                |k: (int, int)| 0 <= k.0 < pixels_per_line && 0 <= k.1 < height,
                |k: (int, int)| 0u32,
            ));
        }
        Some(f)
    }

    /// The color of the pixel at `(x, y)`, or `None` when it is not visible.
    pub fn pixel(&self, x: i64, y: i64) -> (r: Option<u32>)
        requires
            self.wf(),
        ensures
            r is Some <==> visible(*self, x as int, y as int),
            r matches Some(c) ==> self.image().dom().contains((x as int, y as int)) && self.image()[(x as int, y as int)] == c,
    {
        if self.is_in_x_range(x) && self.is_in_y_range(y) {
            proof {
                lemma_index_in_buffer(self.pixels_per_line as int, self.height as int, x as int, y as int);
                }
            let idx = (y as usize) * (self.pixels_per_line as usize) + (x as usize);
            Some(self.buf[idx])
        } else {
            None
        }
    }
}

proof fn lemma_index_in_buffer(ppl: int, h: int, x: int, y: int)
    requires
        0 <= x < ppl,
        0 <= y < h,
    ensures
        0 <= y * ppl + x < ppl * h,
        0 <= y * ppl,
        x < ppl * h,
        y < ppl * h,
        ppl <= ppl * h,
{
    assert(0 <= y * ppl + x < ppl * h && 0 <= y * ppl && x < ppl * h && y < ppl * h && ppl <= ppl * h) by (nonlinear_arith)
        requires
            0 <= x < ppl,
            0 <= y < h;
}

proof fn lemma_index_injective(ppl: int, x1: int, y1: int, x2: int, y2: int)
    requires
        0 <= x1 < ppl,
        0 <= x2 < ppl,
        0 <= y1,
        0 <= y2,
        y1 * ppl + x1 == y2 * ppl + x2,
    ensures
        x1 == x2 && y1 == y2,
{
    if y1 < y2 {
        assert(y1 * ppl + ppl <= y2 * ppl) by (nonlinear_arith)
            requires y1 < y2, ppl > 0;
    } else if y2 < y1 {
        assert(y2 * ppl + ppl <= y1 * ppl) by (nonlinear_arith)
            requires y2 < y1, ppl > 0;
    }
}

impl Bitmap for FrameBuffer {
    closed spec fn spec_bytes_per_pixel(&self) -> i64 {
        self.bytes_per_pixel
    }

    closed spec fn spec_pixels_per_line(&self) -> i64 {
        self.pixels_per_line
    }

    closed spec fn spec_width(&self) -> i64 {
        self.width
    }

    closed spec fn spec_height(&self) -> i64 {
        self.height
    }

    closed spec fn wf(&self) -> bool {
        &&& 0 <= self.width
        &&& 0 <= self.height
        &&& 0 <= self.pixels_per_line
        &&& self.buf@.len() == self.pixels_per_line * self.height
        &&& self.pixels_per_line * self.height <= usize::MAX
    }

    closed spec fn image(&self) -> Image {
        Map::new(
            |k: (int, int)| self.stored_at(k.0, k.1),
            |k: (int, int)| self.buf@[k.1 * self.pixels_per_line + k.0],
        )
    }

    fn bytes_per_pixel(&self) -> (r: i64) {
        self.bytes_per_pixel
    }

    fn pixels_per_line(&self) -> (r: i64) {
        self.pixels_per_line
    }

    fn width(&self) -> (r: i64) {
        self.width
    }

    fn height(&self) -> (r: i64) {
        self.height
    }

    fn write_pixel(&mut self, x: i64, y: i64, color: u32) {
        proof {
            lemma_index_in_buffer(self.pixels_per_line as int, self.height as int, x as int, y as int);
        }
        let idx = (y as usize) * (self.pixels_per_line as usize) + (x as usize);
        self.buf.set(idx, color);
        proof {
            assert forall|k: (int, int)| #[trigger] self.image().dom().contains(k) implies self.image()[k]
                == old(self).image().insert((x as int, y as int), color)[k] by {
                if k != (x as int, y as int) {
                    lemma_index_in_buffer(self.pixels_per_line as int, self.height as int, k.0, k.1);
                    if k.1 * self.pixels_per_line + k.0 == y * self.pixels_per_line + x {
                        lemma_index_injective(self.pixels_per_line as int, k.0, k.1, x as int, y as int);
                    }
                }
            }
            assert(self.image() =~= old(self).image().insert((x as int, y as int), color));
        }
    }
}

} // verus!
