use vstd::prelude::*;
use vstd::arithmetic::div_mod::lemma_fundamental_div_mod_converse;
use vstd::arithmetic::div_mod::lemma_fundamental_div_mod;

use crate::color::{alpha_of, blend, Color};

verus! {

/// The color that `c` leaves on a pixel that held `old`.
pub open spec fn blended(old: Color, c: Color) -> Color {
    Color { data: blend(old.data, c.data) }
}

/// `(x, y)` lies on a `w` by `h` surface.
pub open spec fn on_surface(w: int, h: int, x: int, y: int) -> bool {
    0 <= x < w && 0 <= y < h
}

/// The buffer after compositing `c` at `(x, y)`; a point off the surface
/// leaves it as it was.
pub open spec fn plot(buf: Seq<Color>, w: int, h: int, x: int, y: int, c: Color) -> Seq<Color> {
    if on_surface(w, h, x, y) {
        buf.update(y * w + x, blended(buf[y * w + x], c))
    } else {
        buf
    }
}

/// `(px, py)` lies in the rectangle at `(x, y)` of size `rw` by `rh`.
pub open spec fn in_rect(px: int, py: int, x: int, y: int, rw: int, rh: int) -> bool {
    x <= px < x + rw && y <= py < y + rh
}

/// The buffer after compositing `c` over the part of a rectangle that lies on
/// the surface of width `w`.
pub open spec fn paint_rect(buf: Seq<Color>, w: int, x: int, y: int, rw: int, rh: int, c: Color) -> Seq<Color> {
    Seq::new(
        buf.len(),
        |k: int|
            if in_rect(k % w, k / w, x, y, rw, rh) {
                blended(buf[k], c)
            } else {
                buf[k]
            },
    )
}


/// The buffer after compositing `c` at each point of `pts`, in order.
pub open spec fn paint(buf: Seq<Color>, w: int, h: int, pts: Seq<(int, int)>, c: Color) -> Seq<Color>
    decreases pts.len(),
{
    if pts.len() == 0 {
        buf
    } else {
        plot(paint(buf, w, h, pts.drop_last(), c), w, h, pts.last().0, pts.last().1, c)
    }
}

/// The points that the integer line walk visits from `(x, y)` with error
/// term `err` until it reaches `(x2, y2)`, for at most `fuel` points.
pub open spec fn line_walk(
    x: int,
    y: int,
    err: int,
    x2: int,
    y2: int,
    dx: int,
    dy: int,
    sx: int,
    sy: int,
    fuel: nat,
) -> Seq<(int, int)>
    decreases fuel,
{
    if fuel == 0 {
        Seq::empty()
    } else if x == x2 && y == y2 {
        seq![(x, y)]
    } else {
        let e2 = 2 * err;
        let err1 = if e2 > -dx { err - dy } else { err };
        let nx = if e2 > -dx { x + sx } else { x };
        let err2 = if e2 < dy { err1 + dx } else { err1 };
        let ny = if e2 < dy { y + sy } else { y };
        seq![(x, y)] + line_walk(nx, ny, err2, x2, y2, dx, dy, sx, sy, (fuel - 1) as nat)
    }
}

pub open spec fn abs_diff(a: int, b: int) -> int {
    if a > b { a - b } else { b - a }
}

/// The initial error term of the walk from `(x1, y1)` to `(x2, y2)`.
pub open spec fn line_err0(x1: int, y1: int, x2: int, y2: int) -> int {
    let dx = abs_diff(x1, x2);
    let dy = abs_diff(y1, y2);
    if dx > dy { dx / 2 } else { -(dy / 2) }
}

/// `(x1, y1)` comes before `(x2, y2)`: by `x`, then by `y`.
pub open spec fn point_before(x1: int, y1: int, x2: int, y2: int) -> bool {
    x1 < x2 || (x1 == x2 && y1 < y2)
}

/// The points of the line between `(x1, y1)` and `(x2, y2)`, both ends
/// included: the integer walk from whichever end comes first.
pub open spec fn line_points(x1: int, y1: int, x2: int, y2: int) -> Seq<(int, int)> {
    if point_before(x2, y2, x1, y1) {
        walk_points(x2, y2, x1, y1)
    } else {
        walk_points(x1, y1, x2, y2)
    }
}

/// The points that the integer (Bresenham) walk visits from `(x1, y1)` to
/// `(x2, y2)`, both ends included.
pub open spec fn walk_points(x1: int, y1: int, x2: int, y2: int) -> Seq<(int, int)> {
    let dx = abs_diff(x1, x2);
    let dy = abs_diff(y1, y2);
    let sx = if x1 < x2 { 1int } else { -1int };
    let sy = if y1 < y2 { 1int } else { -1int };
    line_walk(x1, y1, line_err0(x1, y1, x2, y2), x2, y2, dx, dy, sx, sy, (dx + dy + 1) as nat)
}

/// The buffer after drawing the first `n` segments of the polyline `pts`.
pub open spec fn paint_lines(buf: Seq<Color>, w: int, h: int, pts: Seq<[i32; 2]>, n: int, c: Color) -> Seq<Color>
    decreases n,
{
    if n <= 0 {
        buf
    } else {
        paint(
            paint_lines(buf, w, h, pts, n - 1, c),
            w,
            h,
            line_points(pts[n - 1][0] as int, pts[n - 1][1] as int, pts[n][0] as int, pts[n][1] as int),
            c,
        )
    }
}

/// The index into an image of width `iw` at `(sx, sy)` that covers the
/// surface point `(px, py)`.
pub open spec fn image_index(px: int, py: int, sx: int, sy: int, iw: int) -> int {
    (py - sy) * iw + (px - sx)
}

/// The surface point `(px, py)` lies under a pixel that the image supplies.
pub open spec fn image_covers(px: int, py: int, sx: int, sy: int, iw: int, ih: int, len: int) -> bool {
    &&& 0 <= px - sx < iw
    &&& 0 <= py - sy < ih
    &&& image_index(px, py, sx, sy, iw) < len
}

/// The buffer of row width `w` after compositing the `iw` by `ih` image `img`
/// with its top left corner at `(sx, sy)`.
pub open spec fn paint_image(buf: Seq<Color>, w: int, sx: int, sy: int, iw: int, ih: int, img: Seq<Color>) -> Seq<Color> {
    Seq::new(
        buf.len(),
        |k: int|
            if image_covers(k % w, k / w, sx, sy, iw, ih, img.len() as int) {
                blended(buf[k], img[image_index(k % w, k / w, sx, sy, iw)])
            } else {
                buf[k]
            },
    )
}

/// Row `row`, column `col` of glyph `c` is set in the font table.
pub open spec fn glyph_bit(font: Seq<u8>, c: char, row: int, col: int) -> bool {
    let off = c as int * 16 + row;
    &&& 0 <= off < font.len()
    &&& (font[off] >> ((7 - col) as u8)) & 1u8 == 1u8
}

/// The set points among the first `n` cells of the 8 by 16 glyph of `c`,
/// drawn at `(x, y)`, row by row.
pub open spec fn glyph_points(font: Seq<u8>, c: char, x: int, y: int, n: int) -> Seq<(int, int)>
    decreases n,
{
    if n <= 0 {
        Seq::empty()
    } else {
        let prev = glyph_points(font, c, x, y, n - 1);
        let row = (n - 1) / 8;
        let col = (n - 1) % 8;
        if glyph_bit(font, c, row, col) {
            prev.push((x + col, y + row))
        } else {
            prev
        }
    }
}

/// The buffer of row width `w` after filling, on row `y`, the spans between
/// the crossings `s[0]` and `s[1]`, `s[2]` and `s[3]`, and so on, for the first
/// `n` pairs; each span holds its left end and not its right.
pub open spec fn paint_spans(buf: Seq<Color>, w: int, y: int, s: Seq<i32>, n: int, c: Color) -> Seq<Color>
    decreases n,
{
    if n <= 0 {
        buf
    } else {
        paint_rect(
            paint_spans(buf, w, y, s, n - 1, c),
            w,
            s[2 * n - 2] as int,
            y,
            s[2 * n - 1] - s[2 * n - 2],
            1,
            c,
        )
    }
}

/// `s` is in ascending order.
pub open spec fn ascending(s: Seq<i32>) -> bool {
    forall|i: int, j: int| 0 <= i < j < s.len() ==> s[i] <= s[j]
}

/// The buffer of row width `w` after compositing `c` over each rectangle
/// `(x, y, width, height)` of `rects`, in order.
pub open spec fn paint_rects(buf: Seq<Color>, w: int, rects: Seq<(int, int, int, int)>, c: Color) -> Seq<Color>
    decreases rects.len(),
{
    if rects.len() == 0 {
        buf
    } else {
        let r = rects.last();
        paint_rect(paint_rects(buf, w, rects.drop_last(), c), w, r.0, r.1, r.2, r.3, c)
    }
}

/// One step of the midpoint circle walk: the next `(x, y, err)`.
pub open spec fn outline_next(x: int, y: int, err: int) -> (int, int, int) {
    let y1 = y + 1;
    let e1 = err + 1 + 2 * y1;
    if 2 * (e1 - x) + 1 > 0 {
        (x - 1, y1, e1 + 1 - 2 * (x - 1))
    } else {
        (x, y1, e1)
    }
}

/// The `(x, y)` offsets of one octant of a circle, as the midpoint walk visits
/// them from `(x, y)` with error term `err` while `x >= y`, for at most `fuel`
/// steps.
pub open spec fn outline_walk(x: int, y: int, err: int, fuel: nat) -> Seq<(int, int)>
    decreases fuel,
{
    if fuel == 0 || x < y {
        Seq::empty()
    } else {
        let n = outline_next(x, y, err);
        seq![(x, y)] + outline_walk(n.0, n.1, n.2, (fuel - 1) as nat)
    }
}

/// The octant offsets of a circle of radius `r >= 0`.
pub open spec fn octant(r: int) -> Seq<(int, int)> {
    outline_walk(r, 0, 0, (r + 2) as nat)
}

/// The rectangle `op`, if bit `bit` of `parts` is set.
pub open spec fn part(parts: u8, bit: u8, op: (int, int, int, int)) -> Seq<(int, int, int, int)> {
    if parts & bit != 0 {
        seq![op]
    } else {
        Seq::empty()
    }
}

/// What one step `(x, y)` of an arc around `(x0, y0)` draws: for a negative
/// radius a row span of each chosen eighth, for radius zero the centre, else
/// a pixel of each chosen eighth.
pub open spec fn arc_step(x0: int, y0: int, radius: int, parts: u8, x: int, y: int) -> Seq<(int, int, int, int)> {
    if radius < 0 {
        Seq::empty() + part(parts, 1, (x0 - x, y0 + y, x, 1)) + part(parts, 2, (x0, y0 + y, x + 1, 1)) + part(
            parts,
            4,
            (x0 - y, y0 + x, y, 1),
        ) + part(parts, 8, (x0, y0 + x, y + 1, 1)) + part(parts, 16, (x0 - x, y0 - y, x, 1)) + part(
            parts,
            32,
            (x0, y0 - y, x + 1, 1),
        ) + part(parts, 64, (x0 - y, y0 - x, y, 1)) + part(parts, 128, (x0, y0 - x, y + 1, 1))
    } else if radius == 0 {
        seq![(x0, y0, 1, 1)]
    } else {
        Seq::empty() + part(parts, 1, (x0 - x, y0 + y, 1, 1)) + part(parts, 2, (x0 + x, y0 + y, 1, 1)) + part(
            parts,
            4,
            (x0 - y, y0 + x, 1, 1),
        ) + part(parts, 8, (x0 + y, y0 + x, 1, 1)) + part(parts, 16, (x0 - x, y0 - y, 1, 1)) + part(
            parts,
            32,
            (x0 + x, y0 - y, 1, 1),
        ) + part(parts, 64, (x0 - y, y0 - x, 1, 1)) + part(parts, 128, (x0 + y, y0 - x, 1, 1))
    }
}

/// What an arc draws for the steps `steps` of its walk, in order.
pub open spec fn arc_rects(x0: int, y0: int, radius: int, parts: u8, steps: Seq<(int, int)>) -> Seq<(int, int, int, int)>
    decreases steps.len(),
{
    if steps.len() == 0 {
        Seq::empty()
    } else {
        arc_rects(x0, y0, radius, parts, steps.drop_last()) + arc_step(
            x0,
            y0,
            radius,
            parts,
            steps.last().0,
            steps.last().1,
        )
    }
}

pub open spec fn abs(v: int) -> int {
    if v < 0 { -v } else { v }
}

/// The half width of the circle with octant steps `steps` on a row at
/// distance `a` from the centre: the largest `x` of a step at height `a`, or
/// the largest `y` of a step at `x == a`; -1 when the circle has no point on
/// that row.
pub open spec fn reach(steps: Seq<(int, int)>, a: int) -> int
    decreases steps.len(),
{
    if steps.len() == 0 {
        -1
    } else {
        let s = steps.last();
        let prev = reach(steps.drop_last(), a);
        let c1 = if s.1 == a { s.0 } else { -1 };
        let c2 = if s.0 == a { s.1 } else { -1 };
        let m = if c1 > c2 { c1 } else { c2 };
        if prev > m { prev } else { m }
    }
}

/// The row spans of a filled circle around `(x0, y0)` with octant steps
/// `steps`, for the `n` rows from offset `lo` down: on each row that the
/// outline touches, the span between its leftmost and rightmost point.
pub open spec fn disc_rows(x0: int, y0: int, steps: Seq<(int, int)>, lo: int, n: nat) -> Seq<(int, int, int, int)>
    decreases n,
{
    if n == 0 {
        Seq::empty()
    } else {
        let t = lo + n - 1;
        let m = reach(steps, abs(t));
        disc_rows(x0, y0, steps, lo, (n - 1) as nat) + if m >= 0 {
            seq![(x0 - m, y0 + t, 2 * m + 1, 1)]
        } else {
            Seq::empty()
        }
    }
}

/// The row spans of the filled disc of radius `r >= 0` around `(x0, y0)`.
pub open spec fn disc(x0: int, y0: int, r: int) -> Seq<(int, int, int, int)> {
    disc_rows(x0, y0, octant(r), -r, (2 * r + 1) as nat)
}

/// Some rectangle of `ops` covers `(px, py)`.
pub open spec fn covers(ops: Seq<(int, int, int, int)>, px: int, py: int) -> bool {
    exists|i: int| #![trigger ops[i]] 0 <= i < ops.len() && in_rect(px, py, ops[i].0, ops[i].1, ops[i].2, ops[i].3)
}

/// The offset `(dx, dy)` from the centre is one of the eight mirror images
/// of the octant step `s`.
pub open spec fn mirrors(s: (int, int), dx: int, dy: int) -> bool {
    (abs(dx) == s.0 && abs(dy) == s.1) || (abs(dx) == s.1 && abs(dy) == s.0)
}

proof fn lemma_covers_concat(a: Seq<(int, int, int, int)>, b: Seq<(int, int, int, int)>, px: int, py: int)
    ensures
        covers(a + b, px, py) <==> covers(a, px, py) || covers(b, px, py),
{
    let ab = a + b;
    if covers(ab, px, py) {
        let i = choose|i: int| #![trigger ab[i]] 0 <= i < ab.len() && in_rect(px, py, ab[i].0, ab[i].1, ab[i].2, ab[i].3);
        if i < a.len() {
            assert(a[i] == ab[i]);
        } else {
            assert(b[i - a.len()] == ab[i]);
        }
    }
    if covers(a, px, py) {
        let i = choose|i: int| #![trigger a[i]] 0 <= i < a.len() && in_rect(px, py, a[i].0, a[i].1, a[i].2, a[i].3);
        assert(ab[i] == a[i]);
    }
    if covers(b, px, py) {
        let i = choose|i: int| #![trigger b[i]] 0 <= i < b.len() && in_rect(px, py, b[i].0, b[i].1, b[i].2, b[i].3);
        assert(ab[i + a.len()] == b[i]);
    }
}

proof fn lemma_walk_bounds(x: int, y: int, err: int, fuel: nat, r: int)
    requires
        0 <= y,
        x <= r,
    ensures
        forall|i: int| #![trigger outline_walk(x, y, err, fuel)[i]]
            0 <= i < outline_walk(x, y, err, fuel).len() ==> 0 <= outline_walk(x, y, err, fuel)[i].1
                <= outline_walk(x, y, err, fuel)[i].0 <= r,
    decreases fuel,
{
    if fuel > 0 && x >= y {
        let n = outline_next(x, y, err);
        lemma_walk_bounds(n.0, n.1, n.2, (fuel - 1) as nat, r);
        let w = outline_walk(x, y, err, fuel);
        let rest = outline_walk(n.0, n.1, n.2, (fuel - 1) as nat);
        assert forall|i: int| #![trigger w[i]] 0 <= i < w.len() implies 0 <= w[i].1 <= w[i].0 <= r by {
            if i > 0 {
                assert(w[i] == rest[i - 1]);
            }
        }
    }
}

/// Every octant step `(x, y)` of a circle of radius `r` has `0 <= y <= x <= r`.
pub(crate) proof fn lemma_octant_bounds(r: int)
    requires
        r >= 0,
    ensures
        forall|i: int| #![trigger octant(r)[i]] 0 <= i < octant(r).len() ==> 0 <= octant(r)[i].1 <= octant(r)[i].0 <= r,
{
    lemma_walk_bounds(r, 0, 0, (r + 2) as nat, r);
}

/// What `reach` says of the steps: it is -1 exactly when no step lies on the
/// row, bounds every step on the row, and is reached by one of them.
pub(crate) proof fn lemma_reach(steps: Seq<(int, int)>, a: int)
    requires
        forall|i: int| #![trigger steps[i]] 0 <= i < steps.len() ==> 0 <= steps[i].1 <= steps[i].0,
        a >= 0,
    ensures
        reach(steps, a) >= -1,
        reach(steps, a) >= 0 <==> exists|i: int| #![trigger steps[i]] 0 <= i < steps.len() && (steps[i].1 == a || steps[i].0 == a),
        forall|i: int| #![trigger steps[i]]
            0 <= i < steps.len() ==> (steps[i].1 == a ==> steps[i].0 <= reach(steps, a)) && (steps[i].0 == a ==> steps[i].1 <= reach(steps, a)),
        reach(steps, a) >= 0 ==> exists|i: int| #![trigger steps[i]]
            0 <= i < steps.len() && ((steps[i].1 == a && steps[i].0 == reach(steps, a)) || (steps[i].0 == a && steps[i].1 == reach(steps, a))),
    decreases steps.len(),
{
    if steps.len() > 0 {
        let p = steps.drop_last();
        assert forall|i: int| #![trigger p[i]] 0 <= i < p.len() implies 0 <= p[i].1 <= p[i].0 by {
            assert(p[i] == steps[i]);
        }
        lemma_reach(p, a);
        let last = steps.len() - 1;
        assert(steps[last] == steps.last());
        if reach(steps, a) >= 0 && reach(p, a) < 0 {
            assert(steps[last].1 == a || steps[last].0 == a);
        }
        if exists|i: int| #![trigger steps[i]] 0 <= i < steps.len() && (steps[i].1 == a || steps[i].0 == a) {
            let i = choose|i: int| #![trigger steps[i]] 0 <= i < steps.len() && (steps[i].1 == a || steps[i].0 == a);
            if i < last {
                assert(p[i] == steps[i]);
            }
        }
        assert forall|i: int| #![trigger steps[i]]
            0 <= i < steps.len() implies (steps[i].1 == a ==> steps[i].0 <= reach(steps, a)) && (steps[i].0 == a ==> steps[i].1 <= reach(steps, a)) by {
            if i < last {
                assert(p[i] == steps[i]);
            }
        }
        if reach(steps, a) >= 0 {
            if reach(steps, a) == reach(p, a) {
                let i = choose|i: int| #![trigger p[i]]
                    0 <= i < p.len() && ((p[i].1 == a && p[i].0 == reach(p, a)) || (p[i].0 == a && p[i].1 == reach(p, a)));
                assert(steps[i] == p[i]);
            } else {
                assert((steps[last].1 == a && steps[last].0 == reach(steps, a)) || (steps[last].0 == a && steps[last].1 == reach(steps, a)));
            }
        }
    }
}

/// The rows `disc_rows` covers: those in range that the outline touches,
/// each within the half width `reach` of the centre.
proof fn lemma_disc_rows_covers(x0: int, y0: int, steps: Seq<(int, int)>, lo: int, n: nat, px: int, py: int)
    ensures
        covers(disc_rows(x0, y0, steps, lo, n), px, py) <==> (lo <= py - y0 < lo + n && reach(steps, abs(py - y0)) >= 0
            && abs(px - x0) <= reach(steps, abs(py - y0))),
    decreases n,
{
    if n > 0 {
        let t = lo + n - 1;
        let m = reach(steps, abs(t));
        let row: Seq<(int, int, int, int)> = if m >= 0 { seq![(x0 - m, y0 + t, 2 * m + 1, 1)] } else { Seq::empty() };
        lemma_disc_rows_covers(x0, y0, steps, lo, (n - 1) as nat, px, py);
        lemma_covers_concat(disc_rows(x0, y0, steps, lo, (n - 1) as nat), row, px, py);
        if m >= 0 && py == y0 + t && abs(px - x0) <= m {
            assert(row[0] == (x0 - m, y0 + t, 2 * m + 1, 1int));
            assert(in_rect(px, py, row[0].0, row[0].1, row[0].2, row[0].3));
        }
    }
}

/// The points that the eight mirror images of the octant steps `steps`
/// cover, drawn as single pixels around `(x0, y0)`.
proof fn lemma_outline_covers(x0: int, y0: int, r: int, steps: Seq<(int, int)>, px: int, py: int)
    requires
        r > 0,
        forall|i: int| #![trigger steps[i]] 0 <= i < steps.len() ==> 0 <= steps[i].1 <= steps[i].0,
    ensures
        covers(arc_rects(x0, y0, r, 255, steps), px, py) <==> exists|i: int| #![trigger steps[i]]
            0 <= i < steps.len() && mirrors(steps[i], px - x0, py - y0),
    decreases steps.len(),
{
    if steps.len() > 0 {
        let p = steps.drop_last();
        assert forall|i: int| #![trigger p[i]] 0 <= i < p.len() implies 0 <= p[i].1 <= p[i].0 by {
            assert(p[i] == steps[i]);
        }
        lemma_outline_covers(x0, y0, r, p, px, py);
        let (x, y) = steps.last();
        let step = arc_step(x0, y0, r, 255, x, y);
        lemma_covers_concat(arc_rects(x0, y0, r, 255, p), step, px, py);
        assert(255u8 & 1u8 != 0 && 255u8 & 2u8 != 0 && 255u8 & 4u8 != 0 && 255u8 & 8u8 != 0 && 255u8 & 16u8 != 0
            && 255u8 & 32u8 != 0 && 255u8 & 64u8 != 0 && 255u8 & 128u8 != 0) by (bit_vector);
        let pts = seq![
            (x0 - x, y0 + y, 1int, 1int),
            (x0 + x, y0 + y, 1int, 1int),
            (x0 - y, y0 + x, 1int, 1int),
            (x0 + y, y0 + x, 1int, 1int),
            (x0 - x, y0 - y, 1int, 1int),
            (x0 + x, y0 - y, 1int, 1int),
            (x0 - y, y0 - x, 1int, 1int),
            (x0 + y, y0 - x, 1int, 1int),
        ];
        assert(step =~= pts);
        let last = steps.len() - 1;
        assert(steps[last] == (x, y));
        if covers(step, px, py) {
            let k = choose|k: int| #![trigger step[k]] 0 <= k < step.len() && in_rect(px, py, step[k].0, step[k].1, step[k].2, step[k].3);
            assert(mirrors(steps[last], px - x0, py - y0));
        }
        if mirrors(steps[last], px - x0, py - y0) {
            let dx = px - x0;
            let dy = py - y0;
            let k: int = if abs(dx) == x && abs(dy) == y {
                if dx < 0 { if dy >= 0 { 0 } else { 4 } } else { if dy >= 0 { 1 } else { 5 } }
            } else {
                if dx < 0 { if dy >= 0 { 2 } else { 6 } } else { if dy >= 0 { 3 } else { 7 } }
            };
            assert(in_rect(px, py, step[k].0, step[k].1, step[k].2, step[k].3));
        }
        if exists|i: int| #![trigger steps[i]] 0 <= i < steps.len() && mirrors(steps[i], px - x0, py - y0) {
            let i = choose|i: int| #![trigger steps[i]] 0 <= i < steps.len() && mirrors(steps[i], px - x0, py - y0);
            if i < last {
                assert(p[i] == steps[i]);
            }
        }
        if exists|i: int| #![trigger p[i]] 0 <= i < p.len() && mirrors(p[i], px - x0, py - y0) {
            let i = choose|i: int| #![trigger p[i]] 0 <= i < p.len() && mirrors(p[i], px - x0, py - y0);
            assert(steps[i] == p[i]);
        }
    }
}

/// A filled circle covers, on each row, exactly the points between two points
/// of the outline of the same radius on that row, and no row that the
/// outline misses.
pub proof fn lemma_disc_spans_outline(x0: int, y0: int, r: int, px: int, py: int)
    requires
        r > 0,
    ensures
        covers(disc(x0, y0, r), px, py) <==> exists|a: int, b: int|
            covers(arc_rects(x0, y0, r, 255, octant(r)), a, py) && covers(arc_rects(x0, y0, r, 255, octant(r)), b, py) && a <= px
                <= b,
{
    let steps = octant(r);
    let outline = arc_rects(x0, y0, r, 255, steps);
    let t = py - y0;
    let at = abs(t);
    lemma_octant_bounds(r);
    lemma_reach(steps, at);
    lemma_disc_rows_covers(x0, y0, steps, -r, (2 * r + 1) as nat, px, py);
    let m = reach(steps, at);
    if covers(disc(x0, y0, r), px, py) {
        let i = choose|i: int| #![trigger steps[i]]
            0 <= i < steps.len() && ((steps[i].1 == at && steps[i].0 == m) || (steps[i].0 == at && steps[i].1 == m));
        assert(mirrors(steps[i], -m, t));
        assert(mirrors(steps[i], m, t));
        lemma_outline_covers(x0, y0, r, steps, x0 - m, py);
        lemma_outline_covers(x0, y0, r, steps, x0 + m, py);
        assert(covers(outline, x0 - m, py) && covers(outline, x0 + m, py) && x0 - m <= px <= x0 + m);
    }
    if exists|a: int, b: int| covers(outline, a, py) && covers(outline, b, py) && a <= px <= b {
        let (a, b) = choose|a: int, b: int| covers(outline, a, py) && covers(outline, b, py) && a <= px <= b;
        lemma_outline_covers(x0, y0, r, steps, a, py);
        lemma_outline_covers(x0, y0, r, steps, b, py);
        let i = choose|i: int| #![trigger steps[i]] 0 <= i < steps.len() && mirrors(steps[i], a - x0, t);
        let j = choose|j: int| #![trigger steps[j]] 0 <= j < steps.len() && mirrors(steps[j], b - x0, t);
        assert(abs(a - x0) <= m);
        assert(abs(b - x0) <= m);
        assert(at <= r);
    }
}

/// What a rounded rectangle at `(x, y)` of size `w` by `h` with corner radius
/// `r` draws, in order: the four corners, then the straight parts.
pub open spec fn rounded_rects(x: int, y: int, w: int, h: int, r: int, filled: bool) -> Seq<(int, int, int, int)> {
    if filled {
        (Seq::empty() + arc_rects(x + r, y + r, -r, 80, octant(r)) + arc_rects(x + w - 1 - r, y + r, -r, 160, octant(r))
            + arc_rects(x + r, y + h - 1 - r, -r, 5, octant(r)) + arc_rects(x + w - 1 - r, y + h - 1 - r, -r, 10, octant(r)))
            .push((x + r, y, w - 1 - 2 * r, r + 1))
            .push((x + r, y + h - 1 - r, w - 1 - 2 * r, r + 1))
            .push((x, y + r + 1, w, h - 2 - 2 * r))
    } else {
        (Seq::empty() + arc_rects(x + r, y + r, r, 80, octant(r)) + arc_rects(x + w - 1 - r, y + r, r, 160, octant(r))
            + arc_rects(x + r, y + h - 1 - r, r, 5, octant(r)) + arc_rects(x + w - 1 - r, y + h - 1 - r, r, 10, octant(r)))
            .push((x + r + 1, y, w - 2 - 2 * r, 1))
            .push((x + r + 1, y + h - 1, w - 2 - 2 * r, 1))
            .push((x, y + r + 1, 1, h - 2 - 2 * r))
            .push((x + w - 1, y + r + 1, 1, h - 2 - 2 * r))
    }
}

pub(crate) proof fn lemma_paint_rects_append(buf: Seq<Color>, w: int, a: Seq<(int, int, int, int)>, b: Seq<(int, int, int, int)>, c: Color)
    ensures
        paint_rects(buf, w, a + b, c) == paint_rects(paint_rects(buf, w, a, c), w, b, c),
    decreases b.len(),
{
    if b.len() == 0 {
        assert(a + b =~= a);
    } else {
        lemma_paint_rects_append(buf, w, a, b.drop_last(), c);
        assert((a + b).drop_last() =~= a + b.drop_last());
    }
}

/// A rectangle in an opaque color replaces every pixel of it that lies on
/// the surface and leaves the others; in a transparent color it changes
/// nothing.
pub proof fn lemma_rect_opaque_or_clear(buf: Seq<Color>, w: int, x: int, y: int, rw: int, rh: int, c: Color)
    ensures
        alpha_of(c.data) == 255 ==> forall|k: int|
            0 <= k < buf.len() ==> #[trigger] paint_rect(buf, w, x, y, rw, rh, c)[k] == if in_rect(k % w, k / w, x, y, rw, rh) {
                c
            } else {
                buf[k]
            },
        alpha_of(c.data) == 0 ==> paint_rect(buf, w, x, y, rw, rh, c) == buf,
{
    if alpha_of(c.data) == 0 {
        assert(paint_rect(buf, w, x, y, rw, rh, c) =~= buf);
    }
}

/// Drawing an image whose pixels are all opaque a second time leaves the
/// surface as the first drawing left it.
pub proof fn lemma_opaque_image_idempotent(buf: Seq<Color>, w: int, sx: int, sy: int, iw: int, ih: int, img: Seq<Color>)
    requires
        forall|i: int| 0 <= i < img.len() ==> alpha_of((#[trigger] img[i]).data) == 255,
    ensures
        paint_image(paint_image(buf, w, sx, sy, iw, ih, img), w, sx, sy, iw, ih, img) == paint_image(buf, w, sx, sy, iw, ih, img),
{
    let once = paint_image(buf, w, sx, sy, iw, ih, img);
    assert forall|k: int| 0 <= k < buf.len() implies #[trigger] paint_image(once, w, sx, sy, iw, ih, img)[k] == once[k] by {
        if image_covers(k % w, k / w, sx, sy, iw, ih, img.len() as int) {
            let i = image_index(k % w, k / w, sx, sy, iw);
            assert(0 <= i) by (nonlinear_arith)
                requires
                    i == (k / w - sy) * iw + (k % w - sx),
                    0 <= k / w - sy,
                    0 <= k % w - sx,
                    iw >= 0,
            ;
        }
    }
    assert(paint_image(once, w, sx, sy, iw, ih, img) =~= once);
}

/// A pixel set in an opaque color reads back as exactly that color.
pub proof fn lemma_opaque_pixel_reads_back(buf: Seq<Color>, w: int, h: int, x: int, y: int, c: Color)
    requires
        buf.len() == w * h,
        on_surface(w, h, x, y),
        alpha_of(c.data) == 255,
    ensures
        plot(buf, w, h, x, y, c)[y * w + x] == c,
{
    lemma_row_bound(w, h, x, y);
}

/// A line covers the same points, in the same order, whichever end it is
/// drawn from.
pub proof fn lemma_line_symmetric(x1: int, y1: int, x2: int, y2: int)
    ensures
        line_points(x1, y1, x2, y2) == line_points(x2, y2, x1, y1),
        line_points(x1, y1, x2, y2).to_set() == line_points(x2, y2, x1, y1).to_set(),
{
}

/// Index `k` of a buffer of row width `w` lies in row `py`, at column `px`.
pub(crate) proof fn lemma_index(w: int, px: int, py: int)
    requires
        0 <= px < w,
        0 <= py,
    ensures
        (py * w + px) / w == py,
        (py * w + px) % w == px,
{
    lemma_fundamental_div_mod_converse(py * w + px, w, py, px);
}

/// Every index of a `w` by `h` buffer is a column and a row on the surface.
pub(crate) proof fn lemma_split(w: int, h: int, k: int)
    requires
        0 <= k < w * h,
        w > 0,
    ensures
        k == (k / w) * w + k % w,
        0 <= k % w < w,
        0 <= k / w < h,
{
    lemma_fundamental_div_mod(k, w);
    let q = k / w;
    let r = k % w;
    assert(0 <= r < w);
    assert(k == q * w + r) by (nonlinear_arith)
        requires
            k == w * q + r,
    ;
    assert(0 <= q < h) by (nonlinear_arith)
        requires
            k == q * w + r,
            0 <= r < w,
            0 <= k < w * h,
            w > 0,
    ;
}

pub(crate) proof fn lemma_row_bound(w: int, h: int, px: int, py: int)
    requires
        0 <= px < w,
        0 <= py < h,
    ensures
        py * w + px < w * h,
        0 <= py * w,
{
    assert(py * w + px < w * h) by (nonlinear_arith)
        requires
            0 <= px < w,
            0 <= py < h,
    ;
    assert(0 <= py * w) by (nonlinear_arith)
        requires
            0 <= px < w,
            0 <= py,
    ;
}

} // verus!
