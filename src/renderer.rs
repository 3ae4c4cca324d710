use vstd::prelude::*;

use crate::color::{blend_value, lemma_unpack, Color};
use crate::raster::{
    blended,
    on_surface,
    plot,
    in_rect,
    paint_rect,
    paint,
    line_walk,
    abs_diff,
    line_err0,
    line_points,
    walk_points,
    paint_lines,
    image_index,
    image_covers,
    paint_image,
    glyph_bit,
    glyph_points,
    paint_spans,
    ascending,
    paint_rects,
    outline_next,
    outline_walk,
    octant,
    part,
    arc_step,
    arc_rects,
    abs,
    disc,
    disc_rows,
    reach,
    lemma_octant_bounds,
    lemma_reach,
    rounded_rects,
    lemma_paint_rects_append,
    lemma_index,
    lemma_split,
    lemma_row_bound,
};
use crate::Mode;

verus! {

/// A `w` by `h` buffer of colors in rows from the top left, which the drawing
/// operations write into.
pub struct ImageMask {
    pub width: u32,
    pub height: u32,
    pub data: Vec<Color>,
    pub mode: Mode,
}

impl ImageMask {
    /// The buffer holds one color for each point of the surface.
    pub open spec fn wf(&self) -> bool {
        &&& self.data@.len() == self.width * self.height
        &&& self.width * self.height <= u32::MAX
    }

    /// A surface of the given size, all white.
    pub fn new(width: u32, height: u32) -> (m: ImageMask)
        requires
            width * height <= u32::MAX,
        ensures
            m.wf(),
            m.width == width,
            m.height == height,
            forall|k: int|
                0 <= k < width * height ==> (#[trigger] m.data@[k]).data == 0xFFFFFFFF,
    {
        let size = width * height;
        let white = Color::rgb(255, 255, 255);
        assert(white.data == 0xFFFFFFFF);
        let mut data: Vec<Color> = Vec::new();
        while data.len() < size as usize
            invariant
                data@.len() <= size,
                white.data == 0xFFFFFFFF,
                forall|k: int| 0 <= k < data@.len() ==> #[trigger] data@[k] == white,
            decreases size - data@.len(),
        {
            data.push(white);
        }
        ImageMask { width, height, data, mode: Mode::Overwrite }
    }

    /// The width of the surface.
    pub fn width(&self) -> (r: u32)
        ensures
            r == self.width,
    {
        self.width
    }

    /// The height of the surface.
    pub fn height(&self) -> (r: u32)
        ensures
            r == self.height,
    {
        self.height
    }

    /// The pixel buffer.
    pub fn data(&self) -> (r: &[Color])
        ensures
            r@ == self.data@,
    {
        self.data.as_slice()
    }

    /// Nothing to present: the buffer is the image.
    pub fn sync(&mut self) -> (r: bool)
        ensures
            r,
            *final(self) == *old(self),
    {
        true
    }

    /// The drawing mode.
    pub fn mode(&self) -> (r: Mode)
        ensures
            r == self.mode,
    {
        self.mode
    }

    /// Composites `color` at the index `k` of the buffer.
    fn blend_at(&mut self, k: usize, color: Color)
        requires
            k < old(self).data@.len(),
        ensures
            final(self).width == old(self).width,
            final(self).height == old(self).height,
            final(self).mode == old(self).mode,
            final(self).data@ == old(self).data@.update(k as int, blended(old(self).data@[k as int], color)),
    {
        let old_value = self.data[k].data;
        let v = blend_value(old_value, color.data);
        self.data[k] = Color { data: v };
    }

    /// Composites `color` at `(x, y)`; a point off the surface is ignored.
    fn put(&mut self, x: i64, y: i64, color: Color)
        requires
            old(self).wf(),
        ensures
            final(self).wf(),
            final(self).width == old(self).width,
            final(self).height == old(self).height,
            final(self).mode == old(self).mode,
            final(self).data@ == plot(old(self).data@, old(self).width as int, old(self).height as int, x as int, y as int, color),
    {
        if x >= 0 && y >= 0 && x < self.width as i64 && y < self.height as i64 {
            proof {
                lemma_row_bound(self.width as int, self.height as int, x as int, y as int);
            }
            let k = (y as usize) * (self.width as usize) + (x as usize);
            self.blend_at(k, color);
        }
    }

    /// Composites `color` at `(x, y)`; a point off the surface is ignored.
    pub fn pixel(&mut self, x: i32, y: i32, color: Color)
        requires
            old(self).wf(),
        ensures
            final(self).wf(),
            final(self).width == old(self).width,
            final(self).height == old(self).height,
            final(self).data@ == plot(old(self).data@, old(self).width as int, old(self).height as int, x as int, y as int, color),
    {
        self.put(x as i64, y as i64, color);
    }

    /// The color at `(x, y)`, or transparent black off the surface.
    pub fn getpixel(&self, x: i32, y: i32) -> (c: Color)
        requires
            self.wf(),
        ensures
            on_surface(self.width as int, self.height as int, x as int, y as int) ==> c == self.data@[y * self.width + x],
            !on_surface(self.width as int, self.height as int, x as int, y as int) ==> c.data == 0,
    {
        if x >= 0 && y >= 0 && (x as i64) < self.width as i64 && (y as i64) < self.height as i64 {
            proof {
                lemma_row_bound(self.width as int, self.height as int, x as int, y as int);
            }
            self.data[(y as usize) * (self.width as usize) + (x as usize)]
        } else {
            Color::rgba(0, 0, 0, 0)
        }
    }

    /// Writes `color` to the indices `start .. end` of the buffer.
    fn fill_span(&mut self, start: usize, end: usize, color: Color)
        requires
            start <= end <= old(self).data@.len(),
        ensures
            final(self).width == old(self).width,
            final(self).height == old(self).height,
            final(self).mode == old(self).mode,
            final(self).data@.len() == old(self).data@.len(),
            forall|k: int|
                0 <= k < old(self).data@.len() ==> #[trigger] final(self).data@[k] == if start <= k < end {
                    color
                } else {
                    old(self).data@[k]
                },
    {
        let mut i = start;
        while i < end
            invariant
                start <= i <= end <= self.data@.len(),
                self.data@.len() == old(self).data@.len(),
                self.width == old(self).width,
                self.height == old(self).height,
                self.mode == old(self).mode,
                forall|k: int|
                    0 <= k < old(self).data@.len() ==> #[trigger] self.data@[k] == if start <= k < i {
                        color
                    } else {
                        old(self).data@[k]
                    },
            decreases end - i,
        {
            self.data[i] = color;
            i = i + 1;
        }
    }

    /// Sets every pixel to `color`, alpha included.
    pub fn set(&mut self, color: Color)
        requires
            old(self).wf(),
        ensures
            final(self).wf(),
            final(self).width == old(self).width,
            final(self).height == old(self).height,
            final(self).data@ == Seq::new(old(self).data@.len(), |k: int| color),
    {
        let n = self.data.len();
        self.fill_span(0, n, color);
        assert(self.data@ =~= Seq::new(old(self).data@.len(), |k: int| color));
    }

    /// Sets every pixel to opaque black.
    pub fn clear(&mut self)
        requires
            old(self).wf(),
        ensures
            final(self).wf(),
            final(self).width == old(self).width,
            final(self).height == old(self).height,
            final(self).data@ == Seq::new(old(self).data@.len(), |k: int| Color { data: 0xFF000000 }),
    {
        let black = Color::rgb(0, 0, 0);
        assert(black.data == 0xFF000000);
        self.set(black);
    }

    /// Composites `color` at the indices `start .. end` of the buffer.
    fn blend_span(&mut self, start: usize, end: usize, color: Color)
        requires
            start <= end <= old(self).data@.len(),
        ensures
            final(self).width == old(self).width,
            final(self).height == old(self).height,
            final(self).mode == old(self).mode,
            final(self).data@.len() == old(self).data@.len(),
            forall|k: int|
                0 <= k < old(self).data@.len() ==> #[trigger] final(self).data@[k] == if start <= k < end {
                    blended(old(self).data@[k], color)
                } else {
                    old(self).data@[k]
                },
    {
        if color.data >> 24 >= 255 {
            proof {
                lemma_unpack(color.data);
            }
            self.fill_span(start, end, color);
            return;
        }
        let mut i = start;
        while i < end
            invariant
                start <= i <= end <= self.data@.len(),
                self.data@.len() == old(self).data@.len(),
                self.width == old(self).width,
                self.height == old(self).height,
                self.mode == old(self).mode,
                forall|k: int|
                    0 <= k < old(self).data@.len() ==> #[trigger] self.data@[k] == if start <= k < i {
                        blended(old(self).data@[k], color)
                    } else {
                        old(self).data@[k]
                    },
            decreases end - i,
        {
            self.blend_at(i, color);
            i = i + 1;
        }
    }

    /// Composites `color` over the part of the `w` by `h` rectangle at `(x, y)`
    /// that lies on the surface; the rest is clipped away.
    pub fn rect(&mut self, x: i32, y: i32, w: u32, h: u32, color: Color)
        requires
            old(self).wf(),
        ensures
            final(self).wf(),
            final(self).width == old(self).width,
            final(self).height == old(self).height,
            final(self).data@ == paint_rect(old(self).data@, old(self).width as int, x as int, y as int, w as int, h as int, color),
    {
        self.rect_at(x as i64, y as i64, w as i64, h as i64, color);
    }

    /// `rect` on wide integers; a width or height of zero or less draws nothing.
    fn rect_at(&mut self, x: i64, y: i64, w: i64, h: i64, color: Color)
        requires
            old(self).wf(),
            -0x100_0000_0000 <= x <= 0x100_0000_0000,
            -0x100_0000_0000 <= y <= 0x100_0000_0000,
            -0x100_0000_0000 <= w <= 0x100_0000_0000,
            -0x100_0000_0000 <= h <= 0x100_0000_0000,
        ensures
            final(self).wf(),
            final(self).width == old(self).width,
            final(self).height == old(self).height,
            final(self).data@ == paint_rect(old(self).data@, old(self).width as int, x as int, y as int, w as int, h as int, color),
    {
        let sw = self.width as i64;
        let sh = self.height as i64;
        let x0: i64 = if x < 0 { 0 } else { x };
        let x1: i64 = if x + w < sw { x + w } else { sw };
        let y0: i64 = if y < 0 { 0 } else { y };
        let y1: i64 = if y + h < sh { y + h } else { sh };
        let ghost buf = self.data@;
        let ghost W = sw as int;
        assert(buf.len() == W * sh);
        if x0 >= x1 || y0 >= y1 {
            assert forall|k: int| 0 <= k < buf.len() implies !in_rect(#[trigger] (k % W), k / W, x as int, y as int, w as int, h as int) by {
                lemma_split(W, sh as int, k);
            }
            assert(self.data@ =~= paint_rect(buf, W, x as int, y as int, w as int, h as int, color));
            return;
        }
        let mut py = y0;
        while py < y1
            invariant
                self.wf(),
                self.width == old(self).width,
                self.height == old(self).height,
                sw == self.width,
                sh == self.height,
                W == sw,
                buf == old(self).data@,
                buf.len() == W * sh,
                0 <= x0 < x1 <= sw,
                0 <= y0 <= py <= y1 <= sh,
                x0 == (if x < 0 { 0 } else { x as int }),
                x1 == (if x + w < sw { x + w } else { sw as int }),
                y0 == (if y < 0 { 0 } else { y as int }),
                y1 == (if y + h < sh { y + h } else { sh as int }),
                forall|k: int|
                    0 <= k < buf.len() ==> #[trigger] self.data@[k] == if in_rect(k % W, k / W, x as int, y as int, w as int, h as int) && k / W < py {
                        blended(buf[k], color)
                    } else {
                        buf[k]
                    },
            decreases y1 - py,
        {
            proof {
                lemma_row_bound(W, sh as int, x0 as int, py as int);
                lemma_row_bound(W, sh as int, x1 - 1, py as int);
            }
            let start = (py as usize) * (sw as usize) + (x0 as usize);
            let end = (py as usize) * (sw as usize) + (x1 as usize);
            self.blend_span(start, end, color);
            proof {
                assert forall|k: int| 0 <= k < buf.len() implies #[trigger] self.data@[k] == if in_rect(k % W, k / W, x as int, y as int, w as int, h as int) && k / W < py + 1 {
                    blended(buf[k], color)
                } else {
                    buf[k]
                } by {
                    lemma_split(W, sh as int, k);
                    if start <= k < end {
                        lemma_index(W, k - py * W, py as int);
                    } else if k / W == py {
                        lemma_index(W, k % W, py as int);
                    }
                }
            }
            py = py + 1;
        }
        assert(self.data@ =~= paint_rect(buf, W, x as int, y as int, w as int, h as int, color)) by {
            assert forall|k: int| 0 <= k < buf.len() implies in_rect(#[trigger] (k % W), k / W, x as int, y as int, w as int, h as int) ==> k / W < py by {
                lemma_split(W, sh as int, k);
            }
        }
    }

    /// Draws the line between `(x1, y1)` and `(x2, y2)`, both ends included;
    /// it is walked from the end that comes first, so both directions draw the
    /// same points.
    pub fn line(&mut self, x1: i32, y1: i32, x2: i32, y2: i32, color: Color)
        requires
            old(self).wf(),
        ensures
            final(self).wf(),
            final(self).width == old(self).width,
            final(self).height == old(self).height,
            final(self).data@ == paint(
                old(self).data@,
                old(self).width as int,
                old(self).height as int,
                line_points(x1 as int, y1 as int, x2 as int, y2 as int),
                color,
            ),
    {
        if x2 < x1 || (x2 == x1 && y2 < y1) {
            self.walk(x2, y2, x1, y1, color);
        } else {
            self.walk(x1, y1, x2, y2, color);
        }
    }

    /// Draws the integer walk from `(x1, y1)` to `(x2, y2)`.
    fn walk(&mut self, x1: i32, y1: i32, x2: i32, y2: i32, color: Color)
        requires
            old(self).wf(),
        ensures
            final(self).wf(),
            final(self).width == old(self).width,
            final(self).height == old(self).height,
            final(self).data@ == paint(
                old(self).data@,
                old(self).width as int,
                old(self).height as int,
                walk_points(x1 as int, y1 as int, x2 as int, y2 as int),
                color,
            ),
    {
        let ghost w = self.width as int;
        let ghost h = self.height as int;
        let ghost buf = self.data@;
        let ghost full = walk_points(x1 as int, y1 as int, x2 as int, y2 as int);
        let xa = x1 as i64;
        let ya = y1 as i64;
        let xb = x2 as i64;
        let yb = y2 as i64;
        let dx: i64 = if xa > xb { xa - xb } else { xb - xa };
        let dy: i64 = if ya > yb { ya - yb } else { yb - ya };
        let sx: i64 = if xa < xb { 1 } else { -1 };
        let sy: i64 = if ya < yb { 1 } else { -1 };
        let e0: i64 = if dx > dy { dx / 2 } else { -(dy / 2) };
        let mut err = e0;
        let mut x = xa;
        let mut y = ya;
        let ghost mut u: int = 0;
        let ghost mut v: int = 0;
        let ghost mut done: Seq<(int, int)> = Seq::empty();
        let ghost mut fuel: nat = (dx + dy + 1) as nat;
        let ghost m: int = if dx > dy { dx as int } else { dy as int };
        loop
            invariant_except_break
                full == done + line_walk(x as int, y as int, err as int, x2 as int, y2 as int, dx as int, dy as int, sx as int, sy as int, fuel),
            invariant
                self.wf(),
                self.width == old(self).width,
                self.height == old(self).height,
                w == self.width,
                h == self.height,
                buf == old(self).data@,
                xb == x2,
                yb == y2,
                dx == abs_diff(x1 as int, x2 as int),
                dy == abs_diff(y1 as int, y2 as int),
                sx == (if x1 < x2 { 1int } else { -1int }),
                sy == (if y1 < y2 { 1int } else { -1int }),
                e0 == line_err0(x1 as int, y1 as int, x2 as int, y2 as int),
                m == (if dx > dy { dx as int } else { dy as int }),
                0 <= u <= dx,
                0 <= v <= dy,
                x == (if x1 < x2 { x1 + u } else { x1 - u }),
                y == (if y1 < y2 { y1 + v } else { y1 - v }),
                err == e0 - u * dy + v * dx,
                -m <= err <= m,
                fuel >= (dx - u) + (dy - v) + 1,
                self.data@ == paint(buf, w, h, done, color),
            ensures
                self.wf(),
                self.width == old(self).width,
                self.height == old(self).height,
                self.data@ == paint(buf, w, h, full, color),
            decreases (dx - u) + (dy - v),
        {
            self.put(x, y, color);
            proof {
                let rest = line_walk(x as int, y as int, err as int, x2 as int, y2 as int, dx as int, dy as int, sx as int, sy as int, fuel);
                assert(rest[0] == (x as int, y as int));
                assert(fuel > 0);
                if x == xb && y == yb {
                    assert(rest =~= seq![(x as int, y as int)]);
                }
                assert((done.push((x as int, y as int))).drop_last() =~= done);
                done = done.push((x as int, y as int));
            }
            if x == xb && y == yb {
                proof {
                    assert(full =~= done);
                }
                break;
            }
            let ghost err_old = err as int;
            let ghost fuel_old = fuel;
            let e2 = 2 * err;
            proof {
                assert(x == x2 <==> u == dx);
                assert(y == y2 <==> v == dy);
                assert(!(x == xb && y == yb));
                assert(!(u == dx && v == dy));
                if u == dx {
                    assert(e2 <= -dx) by (nonlinear_arith)
                        requires
                            e2 == 2 * err,
                            err == e0 - u * dy + v * dx,
                            u == dx,
                            v < dy,
                            2 * e0 <= dx,
                            dx >= 0,
                    ;
                }
                if v == dy {
                    assert(e2 >= dy) by (nonlinear_arith)
                        requires
                            e2 == 2 * err,
                            err == e0 - u * dy + v * dx,
                            v == dy,
                            u < dx,
                            2 * e0 >= -dy,
                            dy >= 0,
                    ;
                }
            }
            if e2 > -dx {
                assert(u < dx);
                err = err - dy;
                x = x + sx;
                proof {
                    assert(err == e0 - (u + 1) * dy + v * dx) by (nonlinear_arith)
                        requires
                            err == err_old - dy,
                            err_old == e0 - u * dy + v * dx,
                    ;
                    u = u + 1;
                }
            }
            if e2 < dy {
                assert(v < dy);
                let ghost err_mid = err as int;
                err = err + dx;
                y = y + sy;
                proof {
                    assert(err == e0 - u * dy + (v + 1) * dx) by (nonlinear_arith)
                        requires
                            err == err_mid + dx,
                            err_mid == e0 - u * dy + v * dx,
                    ;
                    v = v + 1;
                }
            }
            proof {
                fuel = (fuel - 1) as nat;
            }
        }
    }

    /// Draws the polyline through `points`; a single point is drawn as a
    /// pixel, none draws nothing.
    pub fn lines(&mut self, points: &[[i32; 2]], color: Color)
        requires
            old(self).wf(),
        ensures
            final(self).wf(),
            final(self).width == old(self).width,
            final(self).height == old(self).height,
            points@.len() == 0 ==> final(self).data@ == old(self).data@,
            points@.len() == 1 ==> final(self).data@ == plot(
                old(self).data@,
                old(self).width as int,
                old(self).height as int,
                points@[0][0] as int,
                points@[0][1] as int,
                color,
            ),
            points@.len() > 1 ==> final(self).data@ == paint_lines(
                old(self).data@,
                old(self).width as int,
                old(self).height as int,
                points@,
                points@.len() - 1,
                color,
            ),
    {
        let n = points.len();
        if n == 0 {
        } else if n == 1 {
            self.pixel(points[0][0], points[0][1], color);
        } else {
            let mut i: usize = 0;
            while i < n - 1
                invariant
                    n == points@.len(),
                    n > 1,
                    i <= n - 1,
                    self.wf(),
                    self.width == old(self).width,
                    self.height == old(self).height,
                    self.data@ == paint_lines(
                        old(self).data@,
                        old(self).width as int,
                        old(self).height as int,
                        points@,
                        i as int,
                        color,
                    ),
                decreases n - 1 - i,
            {
                let p = points[i];
                let q = points[i + 1];
                self.line(p[0], p[1], q[0], q[1], color);
                i = i + 1;
            }
        }
    }

    /// Composites the `w` by `h` image `data`, stored row by row, with its top
    /// left corner at `(start_x, start_y)`; the parts off the surface, and the
    /// cells past the end of `data`, are skipped.
    pub fn image(&mut self, start_x: i32, start_y: i32, w: u32, h: u32, data: &[Color])
        requires
            old(self).wf(),
        ensures
            final(self).wf(),
            final(self).width == old(self).width,
            final(self).height == old(self).height,
            final(self).data@ == paint_image(
                old(self).data@,
                old(self).width as int,
                start_x as int,
                start_y as int,
                w as int,
                h as int,
                data@,
            ),
    {
        let sw = self.width as i64;
        let sh = self.height as i64;
        let sx = start_x as i64;
        let sy = start_y as i64;
        let x0: i64 = if sx < 0 { 0 } else { sx };
        let x1: i64 = if sx + (w as i64) < sw { sx + (w as i64) } else { sw };
        let y0: i64 = if sy < 0 { 0 } else { sy };
        let y1: i64 = if sy + (h as i64) < sh { sy + (h as i64) } else { sh };
        let ghost buf = self.data@;
        let ghost W = sw as int;
        let ghost len = data@.len() as int;
        assert(buf.len() == W * sh);
        let mut py = y0;
        while py < y1
            invariant
                self.wf(),
                self.width == old(self).width,
                self.height == old(self).height,
                sw == self.width,
                sh == self.height,
                sx == start_x,
                sy == start_y,
                W == sw,
                len == data@.len(),
                buf == old(self).data@,
                buf.len() == W * sh,
                x0 == (if sx < 0 { 0 } else { sx as int }),
                x1 == (if sx + w < sw { sx + w } else { sw as int }),
                y0 == (if sy < 0 { 0 } else { sy as int }),
                y1 == (if sy + h < sh { sy + h } else { sh as int }),
                y0 <= py,
                y0 <= y1 ==> py <= y1,
                forall|k: int|
                    0 <= k < buf.len() ==> #[trigger] self.data@[k] == if image_covers(k % W, k / W, sx as int, sy as int, w as int, h as int, len) && k / W < py {
                        blended(buf[k], data@[image_index(k % W, k / W, sx as int, sy as int, w as int)])
                    } else {
                        buf[k]
                    },
            decreases y1 - py,
        {
            let mut px = x0;
            while px < x1
                invariant
                    self.wf(),
                    self.width == old(self).width,
                    self.height == old(self).height,
                    sw == self.width,
                    sh == self.height,
                    sx == start_x,
                    sy == start_y,
                    W == sw,
                    len == data@.len(),
                    buf == old(self).data@,
                    buf.len() == W * sh,
                    x0 == (if sx < 0 { 0 } else { sx as int }),
                    x1 == (if sx + w < sw { sx + w } else { sw as int }),
                    y0 == (if sy < 0 { 0 } else { sy as int }),
                    y1 == (if sy + h < sh { sy + h } else { sh as int }),
                    y0 <= py < y1,
                    x0 <= px,
                    x0 <= x1 ==> px <= x1,
                    forall|k: int|
                        0 <= k < buf.len() ==> #[trigger] self.data@[k] == if image_covers(k % W, k / W, sx as int, sy as int, w as int, h as int, len) && (k / W < py || (k / W == py && k % W < px)) {
                            blended(buf[k], data@[image_index(k % W, k / W, sx as int, sy as int, w as int)])
                        } else {
                            buf[k]
                        },
                decreases x1 - px,
            {
                let r = (py - sy) as u64;
                let c = (px - sx) as u64;
                assert(r * (w as u64) <= 0xFFFF_FFFF * 0xFFFF_FFFF) by (nonlinear_arith)
                    requires
                        r < 0x1_0000_0000,
                        w < 0x1_0000_0000,
                ;
                let i = r * (w as u64) + c;
                proof {
                    lemma_row_bound(W, sh as int, px as int, py as int);
                }
                let k = (py as usize) * (sw as usize) + (px as usize);
                if i < data.len() as u64 {
                    self.blend_at(k, data[i as usize]);
                }
                proof {
                    lemma_index(W, px as int, py as int);
                    assert forall|j: int| 0 <= j < buf.len() implies #[trigger] self.data@[j] == if image_covers(j % W, j / W, sx as int, sy as int, w as int, h as int, len) && (j / W < py || (j / W == py && j % W < px + 1)) {
                        blended(buf[j], data@[image_index(j % W, j / W, sx as int, sy as int, w as int)])
                    } else {
                        buf[j]
                    } by {
                        lemma_split(W, sh as int, j);
                        if j == k {
                            assert(image_index(px as int, py as int, sx as int, sy as int, w as int) == i);
                        }
                    }
                }
                px = px + 1;
            }
            proof {
                assert forall|j: int| 0 <= j < buf.len() implies #[trigger] self.data@[j] == if image_covers(j % W, j / W, sx as int, sy as int, w as int, h as int, len) && j / W < py + 1 {
                    blended(buf[j], data@[image_index(j % W, j / W, sx as int, sy as int, w as int)])
                } else {
                    buf[j]
                } by {
                    lemma_split(W, sh as int, j);
                }
            }
            py = py + 1;
        }
        assert(self.data@ =~= paint_image(buf, W, sx as int, sy as int, w as int, h as int, data@)) by {
            assert forall|j: int| 0 <= j < buf.len() implies image_covers(#[trigger] (j % W), j / W, sx as int, sy as int, w as int, h as int, len) ==> j / W < py by {
                lemma_split(W, sh as int, j);
            }
        }
    }

    /// Draws the 8 by 16 glyph of `c` from the font table `font` (16 rows of
    /// one byte each, high bit on the left, glyph `c` at offset `16 * c`) with
    /// its top left corner at `(x, y)`; a glyph past the table draws nothing.
    pub fn char(&mut self, x: i32, y: i32, c: char, color: Color, font: &[u8])
        requires
            old(self).wf(),
        ensures
            final(self).wf(),
            final(self).width == old(self).width,
            final(self).height == old(self).height,
            final(self).data@ == paint(
                old(self).data@,
                old(self).width as int,
                old(self).height as int,
                glyph_points(font@, c, x as int, y as int, 128),
                color,
            ),
    {
        let ghost buf = self.data@;
        let ghost w = self.width as int;
        let ghost h = self.height as int;
        let base = (c as u64) * 16;
        let mut j: u64 = 0;
        while j < 128
            invariant
                self.wf(),
                self.width == old(self).width,
                self.height == old(self).height,
                w == self.width,
                h == self.height,
                buf == old(self).data@,
                base == c as int * 16,
                j <= 128,
                self.data@ == paint(buf, w, h, glyph_points(font@, c, x as int, y as int, j as int), color),
            decreases 128 - j,
        {
            let row = j / 8;
            let col = j % 8;
            let offset = base + row;
            let set = offset < font.len() as u64 && (font[offset as usize] >> ((7 - col) as u8)) & 1 == 1;
            let ghost pts = glyph_points(font@, c, x as int, y as int, j as int);
            assert(set == glyph_bit(font@, c, row as int, col as int));
            assert(row as int == j / 8 && col as int == j % 8);
            if set {
                self.put(x as i64 + col as i64, y as i64 + row as i64, color);
                proof {
                    assert(pts.push((x + col, y + row)).drop_last() =~= pts);
                }
            }
            j = j + 1;
        }
    }

    /// Fills, on row `y`, the spans between the crossings taken in pairs:
    /// `crossings[0]` up to `crossings[1]`, `crossings[2]` up to
    /// `crossings[3]`, and so on; a last crossing without a partner is dropped.
    pub fn fill_spans(&mut self, y: i32, crossings: &Vec<i32>, color: Color)
        requires
            old(self).wf(),
        ensures
            final(self).wf(),
            final(self).width == old(self).width,
            final(self).height == old(self).height,
            final(self).data@ == paint_spans(
                old(self).data@,
                old(self).width as int,
                y as int,
                crossings@,
                crossings@.len() as int / 2,
                color,
            ),
    {
        let len = crossings.len();
        let n = len / 2;
        let mut i: usize = 0;
        while i < n
            invariant
                len == crossings@.len(),
                n == len / 2,
                i <= n,
                self.wf(),
                self.width == old(self).width,
                self.height == old(self).height,
                self.data@ == paint_spans(
                    old(self).data@,
                    old(self).width as int,
                    y as int,
                    crossings@,
                    i as int,
                    color,
                ),
            decreases n - i,
        {
            assert(2 * i + 1 < len);
            let a = crossings[2 * i];
            let b = crossings[2 * i + 1];
            if a < b {
                self.rect(a, y, (b as i64 - a as i64) as u32, 1, color);
            } else {
                let ghost W = self.width as int;
                let ghost before = self.data@;
                proof {
                    assert(before =~= paint_rect(before, W, a as int, y as int, b - a, 1, color));
                }
            }
            i = i + 1;
        }
    }

    /// Sorts the crossings of a row in ascending order and fills the spans
    /// between them in pairs, as `fill_spans` does.
    pub fn fill_row(&mut self, y: i32, crossings: Vec<i32>, color: Color)
        requires
            old(self).wf(),
        ensures
            final(self).wf(),
            final(self).width == old(self).width,
            final(self).height == old(self).height,
            exists|s: Seq<i32>|
                {
                    &&& ascending(s)
                    &&& s.to_multiset() == crossings@.to_multiset()
                    &&& #[trigger] paint_spans(old(self).data@, old(self).width as int, y as int, s, s.len() as int / 2, color) == final(self).data@
                },
    {
        let mut sorted = crossings;
        sort_ascending(&mut sorted);
        self.fill_spans(y, &sorted, color);
        assert(paint_spans(old(self).data@, old(self).width as int, y as int, sorted@, sorted@.len() as int / 2, color) == self.data@);
    }

    /// Draws the eighths of the circle of radius `|radius|` around `(x0, y0)`
    /// that `parts` selects (bit 0 to 7); a negative radius fills them with
    /// row spans, radius zero draws the centre.
    pub fn arc(&mut self, x0: i32, y0: i32, radius: i32, parts: u8, color: Color)
        requires
            old(self).wf(),
        ensures
            final(self).wf(),
            final(self).width == old(self).width,
            final(self).height == old(self).height,
            final(self).data@ == paint_rects(
                old(self).data@,
                old(self).width as int,
                arc_rects(x0 as int, y0 as int, radius as int, parts, octant(abs(radius as int))),
                color,
            ),
    {
        self.arc_at(x0 as i64, y0 as i64, radius as i64, parts, color);
    }

    /// `arc` on wide integers.
    fn arc_at(&mut self, x0: i64, y0: i64, radius: i64, parts: u8, color: Color)
        requires
            old(self).wf(),
            -0x2_0000_0000 <= x0 <= 0x2_0000_0000,
            -0x2_0000_0000 <= y0 <= 0x2_0000_0000,
            -0x8000_0000 <= radius <= 0x8000_0000,
        ensures
            final(self).wf(),
            final(self).width == old(self).width,
            final(self).height == old(self).height,
            final(self).data@ == paint_rects(
                old(self).data@,
                old(self).width as int,
                arc_rects(x0 as int, y0 as int, radius as int, parts, octant(abs(radius as int))),
                color,
            ),
    {
        let ghost buf = self.data@;
        let ghost w = self.width as int;
        let r: i64 = if radius < 0 { -radius } else { radius };
        let cx = x0;
        let cy = y0;
        let mut x: i64 = r;
        let mut y: i64 = 0;
        let mut err: i128 = 0;
        let ghost full = octant(r as int);
        let ghost mut done: Seq<(int, int)> = Seq::empty();
        let ghost mut ops: Seq<(int, int, int, int)> = Seq::empty();
        let ghost mut fuel: nat = (r + 2) as nat;
        while x >= y
            invariant
                self.wf(),
                self.width == old(self).width,
                self.height == old(self).height,
                w == self.width,
                buf == old(self).data@,
                r == abs(radius as int),
                -0x2_0000_0000 <= x0 <= 0x2_0000_0000,
                -0x2_0000_0000 <= y0 <= 0x2_0000_0000,
                cx == x0,
                cy == y0,
                0 <= y <= r + 1,
                -1 <= x <= r,
                y <= x + 2,
                fuel + y == r + 2,
                err == x * x + y * y + 2 * y - r * r + 2 * (r - x),
                r <= 0x8000_0000,
                full == done + outline_walk(x as int, y as int, err as int, fuel),
                ops == arc_rects(x0 as int, y0 as int, radius as int, parts, done),
                self.data@ == paint_rects(buf, w, ops, color),
            decreases x - y + 2,
        {
            proof {
                assert(fuel > 0);
                let rest = outline_walk(x as int, y as int, err as int, fuel);
                assert(rest[0] == (x as int, y as int));
                assert(done.push((x as int, y as int)).drop_last() =~= done);
            }
            self.arc_points(cx, cy, radius, parts, x, y, color);
            proof {
                lemma_paint_rects_append(buf, w, ops, arc_step(x0 as int, y0 as int, radius as int, parts, x as int, y as int), color);
                ops = ops + arc_step(x0 as int, y0 as int, radius as int, parts, x as int, y as int);
                assert(arc_rects(x0 as int, y0 as int, radius as int, parts, done.push((x as int, y as int))) == ops);
                done = done.push((x as int, y as int));
            }
            let ghost (xo, yo, eo) = (x as int, y as int, err as int);
            assert(-0x10_0000_0000_0000_0000 <= err <= 0x10_0000_0000_0000_0000) by (nonlinear_arith)
                requires
                    err == x * x + y * y + 2 * y - r * r + 2 * (r - x),
                    0 <= y <= r + 1,
                    -1 <= x <= r,
                    0 <= r <= 0x8000_0000,
            ;
            y = y + 1;
            err = err + 1 + 2 * (y as i128);
            if 2 * (err - x as i128) + 1 > 0 {
                x = x - 1;
                err = err + 1 - 2 * (x as i128);
            }
            proof {
                assert(outline_next(xo, yo, eo) == (x as int, y as int, err as int));
                assert(err == x * x + y * y + 2 * y - r * r + 2 * (r - x)) by (nonlinear_arith)
                    requires
                        eo == xo * xo + yo * yo + 2 * yo - r * r + 2 * (r - xo),
                        y == yo + 1,
                        (x == xo && err == eo + 1 + 2 * y) || (x == xo - 1 && err == eo + 1 + 2 * y + 1 - 2 * x),
                ;
                fuel = (fuel - 1) as nat;
            }
        }
        proof {
            assert(outline_walk(x as int, y as int, err as int, fuel) =~= Seq::<(int, int)>::empty());
            assert(full =~= done);
        }
    }

    /// Draws the circle of radius `radius` around `(x0, y0)`; a negative radius
    /// fills the circle of radius `-radius`, each row spanning the outline's
    /// points on it once; radius zero draws the centre.
    pub fn circle(&mut self, x0: i32, y0: i32, radius: i32, color: Color)
        requires
            old(self).wf(),
        ensures
            final(self).wf(),
            final(self).width == old(self).width,
            final(self).height == old(self).height,
            radius >= 0 ==> final(self).data@ == paint_rects(
                old(self).data@,
                old(self).width as int,
                arc_rects(x0 as int, y0 as int, radius as int, 255, octant(radius as int)),
                color,
            ),
            radius < 0 ==> final(self).data@ == paint_rects(
                old(self).data@,
                old(self).width as int,
                disc(x0 as int, y0 as int, -radius),
                color,
            ),
    {
        if radius >= 0 {
            self.arc(x0, y0, radius, 255, color);
            return;
        }
        let ghost buf = self.data@;
        let ghost w = self.width as int;
        let r: i64 = -(radius as i64);
        let cx = x0 as i64;
        let cy = y0 as i64;
        let steps = octant_steps(r);
        let ghost sv = int_steps(steps@);
        proof {
            lemma_octant_bounds(r as int);
        }
        let ghost mut ops: Seq<(int, int, int, int)> = Seq::empty();
        let mut t: i64 = -r;
        while t <= r
            invariant
                self.wf(),
                self.width == old(self).width,
                self.height == old(self).height,
                w == self.width,
                buf == old(self).data@,
                r == -radius,
                cx == x0,
                cy == y0,
                sv == int_steps(steps@),
                sv == octant(r as int),
                forall|i: int| #![trigger sv[i]] 0 <= i < sv.len() ==> 0 <= sv[i].1 <= sv[i].0 <= r,
                -r <= t <= r + 1,
                ops == disc_rows(x0 as int, y0 as int, sv, -r, (t + r) as nat),
                self.data@ == paint_rects(buf, w, ops, color),
            decreases r + 1 - t,
        {
            let a: i64 = if t < 0 { -t } else { t };
            let m = row_reach(&steps, a);
            proof {
                lemma_reach(sv, a as int);
                if m >= 0 {
                    let i = choose|i: int| #![trigger sv[i]]
                        0 <= i < sv.len() && ((sv[i].1 == a && sv[i].0 == m) || (sv[i].0 == a && sv[i].1 == m));
                }
            }
            let ghost row: Seq<(int, int, int, int)> = if m >= 0 {
                seq![((cx - m) as int, (cy + t) as int, (2 * m + 1) as int, 1int)]
            } else {
                Seq::empty()
            };
            proof {
                assert(disc_rows(x0 as int, y0 as int, sv, -r, (t + r + 1) as nat) == ops + row);
            }
            if m >= 0 {
                self.rect_step(cx - m, cy + t, 2 * m + 1, 1, color, Ghost(buf), Ghost(ops));
                proof {
                    assert(ops + row =~= ops.push(((cx - m) as int, (cy + t) as int, (2 * m + 1) as int, 1int)));
                }
            } else {
                proof {
                    assert(ops + row =~= ops);
                }
            }
            proof {
                ops = ops + row;
            }
            t = t + 1;
        }
    }


    /// Draws the `w` by `h` rectangle at `(x, y)` with corners rounded to
    /// radius `radius`, filled or as an outline; a part of zero or negative
    /// size draws nothing.
    #[verifier::rlimit(40)]
    pub fn rounded_rect(&mut self, x: i32, y: i32, w: u32, h: u32, radius: u32, filled: bool, color: Color)
        requires
            old(self).wf(),
            2 * radius <= w,
            2 * radius <= h,
        ensures
            final(self).wf(),
            final(self).width == old(self).width,
            final(self).height == old(self).height,
            final(self).data@ == paint_rects(
                old(self).data@,
                old(self).width as int,
                rounded_rects(x as int, y as int, w as int, h as int, radius as int, filled),
                color,
            ),
    {
        let ghost buf = self.data@;
        let ghost sw = self.width as int;
        let x = x as i64;
        let y = y as i64;
        let w = w as i64;
        let h = h as i64;
        let r = radius as i64;
        let ghost (xi, yi, wi, hi, ri) = (x as int, y as int, w as int, h as int, r as int);
        let ghost mut ops: Seq<(int, int, int, int)> = Seq::empty();
        assert(paint_rects(buf, sw, ops, color) == buf);
        if filled {
            self.arc_at(x + r, y + r, -r, 80, color);
            proof {
                lemma_paint_rects_append(buf, sw, ops, arc_rects(xi + ri, yi + ri, -ri, 80, octant(ri)), color);
                ops = ops + arc_rects(xi + ri, yi + ri, -ri, 80, octant(ri));
            }
            self.arc_at(x + w - 1 - r, y + r, -r, 160, color);
            proof {
                lemma_paint_rects_append(buf, sw, ops, arc_rects(xi + wi - 1 - ri, yi + ri, -ri, 160, octant(ri)), color);
                ops = ops + arc_rects(xi + wi - 1 - ri, yi + ri, -ri, 160, octant(ri));
            }
            self.arc_at(x + r, y + h - 1 - r, -r, 5, color);
            proof {
                lemma_paint_rects_append(buf, sw, ops, arc_rects(xi + ri, yi + hi - 1 - ri, -ri, 5, octant(ri)), color);
                ops = ops + arc_rects(xi + ri, yi + hi - 1 - ri, -ri, 5, octant(ri));
            }
            self.arc_at(x + w - 1 - r, y + h - 1 - r, -r, 10, color);
            proof {
                lemma_paint_rects_append(buf, sw, ops, arc_rects(xi + wi - 1 - ri, yi + hi - 1 - ri, -ri, 10, octant(ri)), color);
                ops = ops + arc_rects(xi + wi - 1 - ri, yi + hi - 1 - ri, -ri, 10, octant(ri));
            }
            self.rect_step(x + r, y, w - 1 - r * 2, r + 1, color, Ghost(buf), Ghost(ops));
            proof { ops = ops.push((xi + ri, yi, wi - 1 - 2 * ri, ri + 1)); }
            self.rect_step(x + r, y + h - 1 - r, w - 1 - r * 2, r + 1, color, Ghost(buf), Ghost(ops));
            proof { ops = ops.push((xi + ri, yi + hi - 1 - ri, wi - 1 - 2 * ri, ri + 1)); }
            self.rect_step(x, y + r + 1, w, h - 2 - r * 2, color, Ghost(buf), Ghost(ops));
            proof { ops = ops.push((xi, yi + ri + 1, wi, hi - 2 - 2 * ri)); }
        } else {
            self.arc_at(x + r, y + r, r, 80, color);
            proof {
                lemma_paint_rects_append(buf, sw, ops, arc_rects(xi + ri, yi + ri, ri, 80, octant(ri)), color);
                ops = ops + arc_rects(xi + ri, yi + ri, ri, 80, octant(ri));
            }
            self.arc_at(x + w - 1 - r, y + r, r, 160, color);
            proof {
                lemma_paint_rects_append(buf, sw, ops, arc_rects(xi + wi - 1 - ri, yi + ri, ri, 160, octant(ri)), color);
                ops = ops + arc_rects(xi + wi - 1 - ri, yi + ri, ri, 160, octant(ri));
            }
            self.arc_at(x + r, y + h - 1 - r, r, 5, color);
            proof {
                lemma_paint_rects_append(buf, sw, ops, arc_rects(xi + ri, yi + hi - 1 - ri, ri, 5, octant(ri)), color);
                ops = ops + arc_rects(xi + ri, yi + hi - 1 - ri, ri, 5, octant(ri));
            }
            self.arc_at(x + w - 1 - r, y + h - 1 - r, r, 10, color);
            proof {
                lemma_paint_rects_append(buf, sw, ops, arc_rects(xi + wi - 1 - ri, yi + hi - 1 - ri, ri, 10, octant(ri)), color);
                ops = ops + arc_rects(xi + wi - 1 - ri, yi + hi - 1 - ri, ri, 10, octant(ri));
            }
            self.rect_step(x + r + 1, y, w - 2 - r * 2, 1, color, Ghost(buf), Ghost(ops));
            proof { ops = ops.push((xi + ri + 1, yi, wi - 2 - 2 * ri, 1)); }
            self.rect_step(x + r + 1, y + h - 1, w - 2 - r * 2, 1, color, Ghost(buf), Ghost(ops));
            proof { ops = ops.push((xi + ri + 1, yi + hi - 1, wi - 2 - 2 * ri, 1)); }
            self.rect_step(x, y + r + 1, 1, h - 2 - r * 2, color, Ghost(buf), Ghost(ops));
            proof { ops = ops.push((xi, yi + ri + 1, 1, hi - 2 - 2 * ri)); }
            self.rect_step(x + w - 1, y + r + 1, 1, h - 2 - r * 2, color, Ghost(buf), Ghost(ops));
            proof { ops = ops.push((xi + wi - 1, yi + ri + 1, 1, hi - 2 - 2 * ri)); }
        }
        assert(ops == rounded_rects(xi, yi, wi, hi, ri, filled));
    }

    /// Draws what one step `(x, y)` of an arc draws.
    #[verifier::rlimit(60)]
    fn arc_points(&mut self, cx: i64, cy: i64, radius: i64, parts: u8, x: i64, y: i64, color: Color)
        requires
            old(self).wf(),
            -0x2_0000_0000 <= cx <= 0x2_0000_0000,
            -0x2_0000_0000 <= cy <= 0x2_0000_0000,
            -2 <= x <= 0x8000_0002,
            -2 <= y <= 0x8000_0002,
        ensures
            final(self).wf(),
            final(self).width == old(self).width,
            final(self).height == old(self).height,
            final(self).data@ == paint_rects(
                old(self).data@,
                old(self).width as int,
                arc_step(cx as int, cy as int, radius as int, parts, x as int, y as int),
                color,
            ),
    {
        let ghost d0 = self.data@;
        let ghost w = self.width as int;
        let ghost mut acc: Seq<(int, int, int, int)> = Seq::empty();
        if radius < 0 {
            self.draw_part(parts, 1, cx - x, cy + y, x, 1, color);
            proof { lemma_paint_rects_append(d0, w, acc, part(parts, 1, ((cx - x) as int, (cy + y) as int, x as int, 1)), color); acc = acc + part(parts, 1, ((cx - x) as int, (cy + y) as int, x as int, 1)); }
            self.draw_part(parts, 2, cx, cy + y, x + 1, 1, color);
            proof { lemma_paint_rects_append(d0, w, acc, part(parts, 2, (cx as int, (cy + y) as int, (x + 1) as int, 1)), color); acc = acc + part(parts, 2, (cx as int, (cy + y) as int, (x + 1) as int, 1)); }
            self.draw_part(parts, 4, cx - y, cy + x, y, 1, color);
            proof { lemma_paint_rects_append(d0, w, acc, part(parts, 4, ((cx - y) as int, (cy + x) as int, y as int, 1)), color); acc = acc + part(parts, 4, ((cx - y) as int, (cy + x) as int, y as int, 1)); }
            self.draw_part(parts, 8, cx, cy + x, y + 1, 1, color);
            proof { lemma_paint_rects_append(d0, w, acc, part(parts, 8, (cx as int, (cy + x) as int, (y + 1) as int, 1)), color); acc = acc + part(parts, 8, (cx as int, (cy + x) as int, (y + 1) as int, 1)); }
            self.draw_part(parts, 16, cx - x, cy - y, x, 1, color);
            proof { lemma_paint_rects_append(d0, w, acc, part(parts, 16, ((cx - x) as int, (cy - y) as int, x as int, 1)), color); acc = acc + part(parts, 16, ((cx - x) as int, (cy - y) as int, x as int, 1)); }
            self.draw_part(parts, 32, cx, cy - y, x + 1, 1, color);
            proof { lemma_paint_rects_append(d0, w, acc, part(parts, 32, (cx as int, (cy - y) as int, (x + 1) as int, 1)), color); acc = acc + part(parts, 32, (cx as int, (cy - y) as int, (x + 1) as int, 1)); }
            self.draw_part(parts, 64, cx - y, cy - x, y, 1, color);
            proof { lemma_paint_rects_append(d0, w, acc, part(parts, 64, ((cx - y) as int, (cy - x) as int, y as int, 1)), color); acc = acc + part(parts, 64, ((cx - y) as int, (cy - x) as int, y as int, 1)); }
            self.draw_part(parts, 128, cx, cy - x, y + 1, 1, color);
            proof { lemma_paint_rects_append(d0, w, acc, part(parts, 128, (cx as int, (cy - x) as int, (y + 1) as int, 1)), color); acc = acc + part(parts, 128, (cx as int, (cy - x) as int, (y + 1) as int, 1)); }
        } else if radius == 0 {
            self.rect_at(cx, cy, 1, 1, color);
            proof {
                acc = seq![(cx as int, cy as int, 1, 1)];
                assert(acc.drop_last() =~= Seq::<(int, int, int, int)>::empty());
                assert(paint_rects(d0, w, Seq::empty(), color) == d0);
                assert(paint_rects(d0, w, acc, color) == self.data@);
            }
        } else {
            self.draw_part(parts, 1, cx - x, cy + y, 1, 1, color);
            proof { lemma_paint_rects_append(d0, w, acc, part(parts, 1, ((cx - x) as int, (cy + y) as int, 1, 1)), color); acc = acc + part(parts, 1, ((cx - x) as int, (cy + y) as int, 1, 1)); }
            self.draw_part(parts, 2, cx + x, cy + y, 1, 1, color);
            proof { lemma_paint_rects_append(d0, w, acc, part(parts, 2, ((cx + x) as int, (cy + y) as int, 1, 1)), color); acc = acc + part(parts, 2, ((cx + x) as int, (cy + y) as int, 1, 1)); }
            self.draw_part(parts, 4, cx - y, cy + x, 1, 1, color);
            proof { lemma_paint_rects_append(d0, w, acc, part(parts, 4, ((cx - y) as int, (cy + x) as int, 1, 1)), color); acc = acc + part(parts, 4, ((cx - y) as int, (cy + x) as int, 1, 1)); }
            self.draw_part(parts, 8, cx + y, cy + x, 1, 1, color);
            proof { lemma_paint_rects_append(d0, w, acc, part(parts, 8, ((cx + y) as int, (cy + x) as int, 1, 1)), color); acc = acc + part(parts, 8, ((cx + y) as int, (cy + x) as int, 1, 1)); }
            self.draw_part(parts, 16, cx - x, cy - y, 1, 1, color);
            proof { lemma_paint_rects_append(d0, w, acc, part(parts, 16, ((cx - x) as int, (cy - y) as int, 1, 1)), color); acc = acc + part(parts, 16, ((cx - x) as int, (cy - y) as int, 1, 1)); }
            self.draw_part(parts, 32, cx + x, cy - y, 1, 1, color);
            proof { lemma_paint_rects_append(d0, w, acc, part(parts, 32, ((cx + x) as int, (cy - y) as int, 1, 1)), color); acc = acc + part(parts, 32, ((cx + x) as int, (cy - y) as int, 1, 1)); }
            self.draw_part(parts, 64, cx - y, cy - x, 1, 1, color);
            proof { lemma_paint_rects_append(d0, w, acc, part(parts, 64, ((cx - y) as int, (cy - x) as int, 1, 1)), color); acc = acc + part(parts, 64, ((cx - y) as int, (cy - x) as int, 1, 1)); }
            self.draw_part(parts, 128, cx + y, cy - x, 1, 1, color);
            proof { lemma_paint_rects_append(d0, w, acc, part(parts, 128, ((cx + y) as int, (cy - x) as int, 1, 1)), color); acc = acc + part(parts, 128, ((cx + y) as int, (cy - x) as int, 1, 1)); }
        }
        proof {
            assert(acc == arc_step(cx as int, cy as int, radius as int, parts, x as int, y as int));
        }
    }

    /// Draws the rectangle `(x, y, w, h)` if bit `bit` of `parts` is set.
    fn draw_part(&mut self, parts: u8, bit: u8, x: i64, y: i64, w: i64, h: i64, color: Color)
        requires
            old(self).wf(),
            -0x100_0000_0000 <= x <= 0x100_0000_0000,
            -0x100_0000_0000 <= y <= 0x100_0000_0000,
            -0x100_0000_0000 <= w <= 0x100_0000_0000,
            -0x100_0000_0000 <= h <= 0x100_0000_0000,
        ensures
            final(self).wf(),
            final(self).width == old(self).width,
            final(self).height == old(self).height,
            final(self).data@ == paint_rects(
                old(self).data@,
                old(self).width as int,
                part(parts, bit, (x as int, y as int, w as int, h as int)),
                color,
            ),
    {
        let ghost op = (x as int, y as int, w as int, h as int);
        let ghost d = self.data@;
        let ghost sw = self.width as int;
        if parts & bit != 0 {
            self.rect_at(x, y, w, h, color);
            assert(seq![op].drop_last() =~= Seq::<(int, int, int, int)>::empty());
            assert(seq![op].last() == op);
            assert(paint_rects(d, sw, Seq::empty(), color) == d);
            assert(paint_rects(d, sw, seq![op], color) == paint_rect(d, sw, op.0, op.1, op.2, op.3, color));
        } else {
            assert(paint_rects(d, sw, Seq::empty(), color) == d);
        }
    }

    /// `rect_at` as one step of a longer drawing: the rectangle joins `ops`.
    fn rect_step(
        &mut self,
        x: i64,
        y: i64,
        w: i64,
        h: i64,
        color: Color,
        Ghost(buf): Ghost<Seq<Color>>,
        Ghost(ops): Ghost<Seq<(int, int, int, int)>>,
    )
        requires
            old(self).wf(),
            -0x100_0000_0000 <= x <= 0x100_0000_0000,
            -0x100_0000_0000 <= y <= 0x100_0000_0000,
            -0x100_0000_0000 <= w <= 0x100_0000_0000,
            -0x100_0000_0000 <= h <= 0x100_0000_0000,
            old(self).data@ == paint_rects(buf, old(self).width as int, ops, color),
        ensures
            final(self).wf(),
            final(self).width == old(self).width,
            final(self).height == old(self).height,
            final(self).data@ == paint_rects(buf, old(self).width as int, ops.push((x as int, y as int, w as int, h as int)), color),
    {
        self.rect_at(x, y, w, h, color);
        assert(ops.push((x as int, y as int, w as int, h as int)).drop_last() =~= ops);
    }
}

/// The octant steps as integers.
spec fn int_steps(v: Seq<(i64, i64)>) -> Seq<(int, int)> {
    v.map_values(|p: (i64, i64)| (p.0 as int, p.1 as int))
}

/// The octant steps of the circle of radius `r`.
fn octant_steps(r: i64) -> (v: Vec<(i64, i64)>)
    requires
        0 <= r <= 0x8000_0000,
    ensures
        int_steps(v@) == octant(r as int),
{
    let mut v: Vec<(i64, i64)> = Vec::new();
    let mut x: i64 = r;
    let mut y: i64 = 0;
    let mut err: i128 = 0;
    let ghost full = octant(r as int);
    let ghost mut fuel: nat = (r + 2) as nat;
    while x >= y
        invariant
            0 <= y <= r + 1,
            -1 <= x <= r,
            y <= x + 2,
            fuel + y == r + 2,
            r <= 0x8000_0000,
            err == x * x + y * y + 2 * y - r * r + 2 * (r - x),
            full == int_steps(v@) + outline_walk(x as int, y as int, err as int, fuel),
        decreases x - y + 2,
    {
        proof {
            assert(fuel > 0);
            let rest = outline_walk(x as int, y as int, err as int, fuel);
            let n = outline_next(x as int, y as int, err as int);
            assert(rest == seq![(x as int, y as int)] + outline_walk(n.0, n.1, n.2, (fuel - 1) as nat));
            assert(int_steps(v@.push((x, y))) =~= int_steps(v@).push((x as int, y as int)));
            assert(int_steps(v@).push((x as int, y as int)) + outline_walk(n.0, n.1, n.2, (fuel - 1) as nat)
                =~= int_steps(v@) + rest);
        }
        v.push((x, y));
        assert(-0x10_0000_0000_0000_0000 <= err <= 0x10_0000_0000_0000_0000) by (nonlinear_arith)
            requires
                err == x * x + y * y + 2 * y - r * r + 2 * (r - x),
                0 <= y <= r + 1,
                -1 <= x <= r,
                0 <= r <= 0x8000_0000,
        ;
        let ghost (xo, yo, eo) = (x as int, y as int, err as int);
        y = y + 1;
        err = err + 1 + 2 * (y as i128);
        if 2 * (err - x as i128) + 1 > 0 {
            x = x - 1;
            err = err + 1 - 2 * (x as i128);
        }
        proof {
            assert(outline_next(xo, yo, eo) == (x as int, y as int, err as int));
            assert(err == x * x + y * y + 2 * y - r * r + 2 * (r - x)) by (nonlinear_arith)
                requires
                    eo == xo * xo + yo * yo + 2 * yo - r * r + 2 * (r - xo),
                    y == yo + 1,
                    (x == xo && err == eo + 1 + 2 * y) || (x == xo - 1 && err == eo + 1 + 2 * y + 1 - 2 * x),
            ;
            fuel = (fuel - 1) as nat;
        }
    }
    proof {
        assert(outline_walk(x as int, y as int, err as int, fuel) =~= Seq::<(int, int)>::empty());
        assert(full =~= int_steps(v@));
    }
    v
}

/// The half width `reach` of the circle with octant steps `steps` on a row at
/// distance `a` from the centre.
fn row_reach(steps: &Vec<(i64, i64)>, a: i64) -> (m: i64)
    ensures
        m == reach(int_steps(steps@), a as int),
{
    let ghost sv = int_steps(steps@);
    let mut m: i64 = -1;
    let mut i: usize = 0;
    assert(sv.subrange(0, 0) =~= Seq::<(int, int)>::empty());
    while i < steps.len()
        invariant
            i <= steps@.len(),
            sv == int_steps(steps@),
            m == reach(sv.subrange(0, i as int), a as int),
        decreases steps@.len() - i,
    {
        let (x, y) = steps[i];
        let c1: i64 = if y == a { x } else { -1 };
        let c2: i64 = if x == a { y } else { -1 };
        let c = if c1 > c2 { c1 } else { c2 };
        if c > m {
            m = c;
        }
        proof {
            let sub = sv.subrange(0, i as int + 1);
            assert(sub.drop_last() =~= sv.subrange(0, i as int));
            assert(sub.last() == (x as int, y as int));
        }
        i = i + 1;
    }
    assert(sv.subrange(0, i as int) =~= sv);
    m
}

/// Relies on `slice::sort`: the same values, in ascending order.
#[verifier::external_body]
fn sort_ascending(v: &mut Vec<i32>)
    ensures
        final(v)@.to_multiset() == old(v)@.to_multiset(),
        ascending(final(v)@),
{
    v.sort();
}

} // verus!
