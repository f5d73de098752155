//! Straight lines on the canvas.
use vstd::prelude::*;

use crate::canvas::SoftCanvas;
#[allow(unused_imports)]
use vstd::math::abs;

verus! {

pub open spec fn gap(a: int, b: int) -> int {
    if a <= b {
        b - a
    } else {
        a - b
    }
}

/// `n / m` rounded to the nearest integer, halves rounded up.
pub open spec fn rounded_div(n: int, m: int) -> int {
    (2 * n + m) / (2 * m)
}

/// The number of steps from one end of a line to the other: the longer of its two extents.
pub open spec fn line_steps(x0: int, y0: int, x1: int, y1: int) -> int {
    if gap(x0, x1) >= gap(y0, y1) {
        gap(x0, x1)
    } else {
        gap(y0, y1)
    }
}

/// How far one coordinate is from `a` after `k` of `n` even steps towards `b`, rounded to the
/// nearest integer.
pub open spec fn travelled(a: int, b: int, k: int, n: int) -> int {
    if n == 0 {
        0
    } else {
        rounded_div(k * gap(a, b), n)
    }
}

/// One coordinate after `k` of `n` even steps from `a` to `b`.
pub open spec fn towards(a: int, b: int, k: int, n: int) -> int {
    if a < b {
        a + travelled(a, b, k, n)
    } else {
        a - travelled(a, b, k, n)
    }
}

/// The `k`-th pixel of the line from (`x0`, `y0`) to (`x1`, `y1`).
pub open spec fn line_pixel(x0: int, y0: int, x1: int, y1: int, k: int) -> (int, int) {
    let n = line_steps(x0, y0, x1, y1);
    (towards(x0, x1, k, n), towards(y0, y1, k, n))
}

/// Whether (`x`, `y`) is one of the first `count` pixels of the line.
pub open spec fn among_first(
    x0: int,
    y0: int,
    x1: int,
    y1: int,
    count: int,
    x: int,
    y: int,
) -> bool {
    exists|k: int| 0 <= k < count && #[trigger] line_pixel(x0, y0, x1, y1, k) == (x, y)
}

/// Whether (`x`, `y`) is a pixel of the line from (`x0`, `y0`) to (`x1`, `y1`).
pub open spec fn on_line(x0: int, y0: int, x1: int, y1: int, x: int, y: int) -> bool {
    among_first(x0, y0, x1, y1, line_steps(x0, y0, x1, y1) + 1, x, y)
}

/// `rounded_div` is the only quotient whose remainder lies in the right interval.
proof fn lemma_rounded_div(n: int, m: int, q: int)
    requires
        m > 0,
    ensures
        q == rounded_div(n, m) <==> 2 * (m * q) <= 2 * n + m < 2 * (m * q) + 2 * m,
{
    let d = 2 * m;
    let a = 2 * n + m;
    vstd::arithmetic::div_mod::lemma_fundamental_div_mod(a, d);
    let q0 = a / d;
    assert(d * q0 == 2 * (m * q0)) by (nonlinear_arith)
        requires
            d == 2 * m,
    ;
    if 2 * (m * q) <= a < 2 * (m * q) + 2 * m {
        let r = a - 2 * (m * q);
        assert(a == q * d + r) by (nonlinear_arith)
            requires
                r == a - 2 * (m * q),
                d == 2 * m,
        ;
        vstd::arithmetic::div_mod::lemma_fundamental_div_mod_converse(a, d, q, r);
    }
}

/// Along the longer extent the line advances by exactly one pixel per step.
proof fn lemma_travelled_major(a: int, b: int, k: int)
    requires
        gap(a, b) > 0,
    ensures
        travelled(a, b, k, gap(a, b)) == k,
{
    let n = gap(a, b);
    assert(k * n == n * k) by (nonlinear_arith);
    lemma_rounded_div(k * n, n, k);
}

/// No coordinate leaves the interval between its two ends, and the last step reaches the end.
proof fn lemma_travelled_bounds(a: int, b: int, k: int, n: int)
    requires
        0 <= k <= n,
        gap(a, b) <= n,
    ensures
        0 <= travelled(a, b, k, n) <= gap(a, b),
        k == 0 ==> travelled(a, b, k, n) == 0,
        k == n ==> travelled(a, b, k, n) == gap(a, b),
{
    if n > 0 {
        let g = gap(a, b);
        let q = travelled(a, b, k, n);
        lemma_rounded_div(k * g, n, q);
        assert(0 <= k * g <= n * g) by (nonlinear_arith)
            requires
                0 <= k <= n,
                0 <= g,
        ;
        assert(q >= 0) by (nonlinear_arith)
            requires
                n > 0,
                0 < 2 * (n * q) + 2 * n,
        ;
        assert(q <= g) by (nonlinear_arith)
            requires
                n > 0,
                2 * (n * q) <= 2 * (n * g) + n,
        ;
        if k == 0 {
            lemma_rounded_div(0, n, 0);
            assert(0 * g == 0);
        }
        if k == n {
            lemma_rounded_div(n * g, n, g);
        }
    }
}

/// The error term decides each step rightly when the x extent `a` is the longer one.
/// `j` is the distance covered in y after `k` steps.
proof fn lemma_step_minor(a: int, b: int, k: int, j: int)
    requires
        0 < a,
        0 <= b <= a,
        j == rounded_div(k * b, a),
    ensures
        ({
            let err = (j + 1) * a - (k + 1) * b;
            &&& 2 * err >= -b
            &&& rounded_div((k + 1) * b, a) == if 2 * err <= a {
                j + 1
            } else {
                j
            }
            &&& -2 * a <= err <= 2 * a
        }),
{
    let err = (j + 1) * a - (k + 1) * b;
    lemma_rounded_div(k * b, a, j);
    lemma_rounded_div((k + 1) * b, a, j);
    lemma_rounded_div((k + 1) * b, a, j + 1);
    assert((j + 1) * a == a * j + a && (k + 1) * b == k * b + b && a * (j + 1) == a * j + a)
        by (nonlinear_arith);
}

impl SoftCanvas {
    /// Draws the line from (`x0`, `y0`) to (`x1`, `y1`), both ends included, one pixel wide.
    /// Distances are counted in `i64`, so no two ends are too far apart.
    pub fn line1(&mut self, x0: i32, y0: i32, x1: i32, y1: i32, r: u8, g: u8, b: u8)
        requires
            old(self).wf(),
        ensures
            final(self).painted(
                old(self),
                |x: int, y: int| on_line(x0 as int, y0 as int, x1 as int, y1 as int, x, y),
                (r, g, b),
            ),
    {
        let dx: i64 = if x0 <= x1 {
            x1 as i64 - x0 as i64
        } else {
            x0 as i64 - x1 as i64
        };
        let dy: i64 = if y0 <= y1 {
            y0 as i64 - y1 as i64
        } else {
            y1 as i64 - y0 as i64
        };
        let sx: i32 = if x0 < x1 {
            1
        } else {
            -1
        };
        let sy: i32 = if y0 < y1 {
            1
        } else {
            -1
        };
        let mut err: i64 = dx + dy;
        let mut x: i32 = x0;
        let mut y: i32 = y0;
        let ghost (gx0, gy0, gx1, gy1) = (x0 as int, y0 as int, x1 as int, y1 as int);
        let ghost n = line_steps(gx0, gy0, gx1, gy1);
        let ghost mut k: int = 0;
        proof {
            lemma_travelled_bounds(gx0, gx1, 0, n);
            lemma_travelled_bounds(gy0, gy1, 0, n);
            let (i, j) = (travelled(gx0, gx1, 0, n), travelled(gy0, gy1, 0, n));
            assert((j + 1) * dx == dx && (i + 1) * (-dy) == -dy) by (nonlinear_arith)
                requires
                    i == 0,
                    j == 0,
            ;
        }
        loop
            invariant_except_break
                0 <= k <= n,
                self.painted(
                    old(self),
                    |px: int, py: int| among_first(gx0, gy0, gx1, gy1, k, px, py),
                    (r, g, b),
                ),
                (x as int, y as int) == line_pixel(gx0, gy0, gx1, gy1, k),
                err == (travelled(gy0, gy1, k, n) + 1) * dx - (travelled(gx0, gx1, k, n) + 1) * (
                -dy),
            invariant
                (gx0, gy0, gx1, gy1) == (x0 as int, y0 as int, x1 as int, y1 as int),
                n == line_steps(gx0, gy0, gx1, gy1),
                dx == gap(gx0, gx1),
                -dy == gap(gy0, gy1),
                sx == if x0 < x1 {
                    1i32
                } else {
                    -1i32
                },
                sy == if y0 < y1 {
                    1i32
                } else {
                    -1i32
                },
            ensures
                self.painted(
                    old(self),
                    |px: int, py: int| on_line(gx0, gy0, gx1, gy1, px, py),
                    (r, g, b),
                ),
            decreases n - k,
        {
            let ghost before = *self;
            self.put(x, y, r, g, b);
            proof {
                assert forall|px: int, py: int|
                    among_first(gx0, gy0, gx1, gy1, k + 1, px, py) == (among_first(
                        gx0,
                        gy0,
                        gx1,
                        gy1,
                        k,
                        px,
                        py,
                    ) || (px == x && py == y)) by {
                    assert(line_pixel(gx0, gy0, gx1, gy1, k) == (x as int, y as int));
                }
                assert forall|px: int, py: int| #[trigger] self.in_frame(px, py) implies self.at(
                    px,
                    py,
                ) == if among_first(gx0, gy0, gx1, gy1, k + 1, px, py) && old(self).reachable(
                    px,
                    py,
                ) {
                    (r, g, b, 255u8)
                } else {
                    old(self).at(px, py)
                } by {
                    assert(before.in_frame(px, py));
                }
                lemma_travelled_bounds(gx0, gx1, k, n);
                lemma_travelled_bounds(gy0, gy1, k, n);
            }
            if x == x1 && y == y1 {
                proof {
                    if k < n {
                        if gap(gx0, gx1) >= gap(gy0, gy1) {
                            lemma_travelled_major(gx0, gx1, k);
                        } else {
                            lemma_travelled_major(gy0, gy1, k);
                        }
                    }
                    assert(k == n);
                }
                break ;
            }
            proof {
                assert(k < n);
                lemma_travelled_bounds(gx0, gx1, k + 1, n);
                lemma_travelled_bounds(gy0, gy1, k + 1, n);
                if gap(gx0, gx1) >= gap(gy0, gy1) {
                    lemma_travelled_major(gx0, gx1, k);
                    lemma_travelled_major(gx0, gx1, k + 1);
                    lemma_step_minor(dx as int, -dy as int, k, travelled(gy0, gy1, k, n));
                } else {
                    lemma_travelled_major(gy0, gy1, k);
                    lemma_travelled_major(gy0, gy1, k + 1);
                    lemma_step_minor(-dy as int, dx as int, k, travelled(gx0, gx1, k, n));
                }
            }
            let ghost (i, j) = (travelled(gx0, gx1, k, n), travelled(gy0, gy1, k, n));
            let e2: i64 = 2 * err;
            if e2 >= dy {
                err = err + dy;
                x = x + sx;
            }
            if e2 <= dx {
                err = err + dx;
                y = y + sy;
            }
            proof {
                assert((j + 1 + 1) * dx == (j + 1) * dx + dx && (i + 1 + 1) * (-dy) == (i + 1) * (
                -dy) + (-dy)) by (nonlinear_arith);
                k = k + 1;
            }
        }
    }
}

/// Whether a brush of half-width `hw` reaches from its centre to the offset (`dx`, `dy`): a
/// disc whose radius is a little larger than `hw`.
pub open spec fn in_brush(dx: int, dy: int, hw: int) -> bool {
    -hw <= dx <= hw && -hw <= dy <= hw && dx * dx + dy * dy <= hw * hw + hw
}

/// Whether the brush of half-width `hw`, drawn along the line, touches (`x`, `y`).
pub open spec fn on_thick_line(
    x0: int,
    y0: int,
    x1: int,
    y1: int,
    hw: int,
    x: int,
    y: int,
) -> bool {
    exists|dx: int, dy: int| #[trigger]
        in_brush(dx, dy, hw) && on_line(x0, y0, x1, y1, x - dx, y - dy)
}

/// `on_thick_line` with the brush offsets taken row by row, up to but without (`cx`, `cy`).
spec fn brushed_before(
    x0: int,
    y0: int,
    x1: int,
    y1: int,
    hw: int,
    cx: int,
    cy: int,
    x: int,
    y: int,
) -> bool {
    exists|dx: int, dy: int| #[trigger]
        in_brush(dx, dy, hw) && (dy < cy || dy == cy && dx < cx) && on_line(
            x0,
            y0,
            x1,
            y1,
            x - dx,
            y - dy,
        )
}

/// A line moved as a whole covers the moved pixels.
pub proof fn law_line_moves_with_its_ends(
    x0: int,
    y0: int,
    x1: int,
    y1: int,
    dx: int,
    dy: int,
    x: int,
    y: int,
)
    ensures
        on_line(x0 + dx, y0 + dy, x1 + dx, y1 + dy, x + dx, y + dy) == on_line(
            x0,
            y0,
            x1,
            y1,
            x,
            y,
        ),
{
    assert forall|k: int| #[trigger]
        line_pixel(x0 + dx, y0 + dy, x1 + dx, y1 + dy, k) == (
            line_pixel(x0, y0, x1, y1, k).0 + dx,
            line_pixel(x0, y0, x1, y1, k).1 + dy,
        ) by {}
    let n = line_steps(x0, y0, x1, y1) + 1;
    if on_line(x0, y0, x1, y1, x, y) {
        let k = choose|k: int| 0 <= k < n && #[trigger] line_pixel(x0, y0, x1, y1, k) == (x, y);
        assert(line_pixel(x0 + dx, y0 + dy, x1 + dx, y1 + dy, k) == (x + dx, y + dy));
    }
    if on_line(x0 + dx, y0 + dy, x1 + dx, y1 + dy, x + dx, y + dy) {
        let k = choose|k: int|
            0 <= k < n && #[trigger] line_pixel(x0 + dx, y0 + dy, x1 + dx, y1 + dy, k) == (
                x + dx,
                y + dy,
            );
        assert(line_pixel(x0, y0, x1, y1, k) == (x, y));
    }
}

/// Both ends of a line are on it.
pub proof fn law_line_holds_its_ends(x0: int, y0: int, x1: int, y1: int)
    ensures
        on_line(x0, y0, x1, y1, x0, y0),
        on_line(x0, y0, x1, y1, x1, y1),
        line_pixel(x0, y0, x1, y1, 0) == (x0, y0),
        line_pixel(x0, y0, x1, y1, line_steps(x0, y0, x1, y1)) == (x1, y1),
{
    let n = line_steps(x0, y0, x1, y1);
    lemma_travelled_bounds(x0, x1, 0, n);
    lemma_travelled_bounds(y0, y1, 0, n);
    lemma_travelled_bounds(x0, x1, n, n);
    lemma_travelled_bounds(y0, y1, n, n);
    assert(line_pixel(x0, y0, x1, y1, 0) == (x0, y0));
    assert(line_pixel(x0, y0, x1, y1, n) == (x1, y1));
}

/// A line stays inside the box between its ends.
pub proof fn law_line_stays_between_its_ends(x0: int, y0: int, x1: int, y1: int, x: int, y: int)
    requires
        on_line(x0, y0, x1, y1, x, y),
    ensures
        x0 <= x <= x1 || x1 <= x <= x0,
        y0 <= y <= y1 || y1 <= y <= y0,
{
    let n = line_steps(x0, y0, x1, y1);
    let k = choose|k: int| 0 <= k < n + 1 && #[trigger] line_pixel(x0, y0, x1, y1, k) == (x, y);
    lemma_travelled_bounds(x0, x1, k, n);
    lemma_travelled_bounds(y0, y1, k, n);
}

/// A line has no holes: each of its pixels touches the next one, if only at a corner, and no
/// two of its pixels are the same.
pub proof fn law_line_is_connected(x0: int, y0: int, x1: int, y1: int, k: int)
    requires
        0 <= k < line_steps(x0, y0, x1, y1),
    ensures
        ({
            let p = line_pixel(x0, y0, x1, y1, k);
            let q = line_pixel(x0, y0, x1, y1, k + 1);
            p != q && gap(p.0, q.0) <= 1 && gap(p.1, q.1) <= 1
        }),
{
    let (a, b) = (gap(x0, x1), gap(y0, y1));
    if a >= b {
        lemma_travelled_major(x0, x1, k);
        lemma_travelled_major(x0, x1, k + 1);
        lemma_step_minor(a, b, k, travelled(y0, y1, k, a));
    } else {
        lemma_travelled_major(y0, y1, k);
        lemma_travelled_major(y0, y1, k + 1);
        lemma_step_minor(b, a, k, travelled(x0, x1, k, b));
    }
}

/// Every point of a line lies within half a pixel of the straight segment between its ends,
/// measured along the shorter extent.
pub proof fn law_line_is_straight(x0: int, y0: int, x1: int, y1: int, k: int)
    requires
        0 <= k <= line_steps(x0, y0, x1, y1),
    ensures
        ({
            let n = line_steps(x0, y0, x1, y1);
            let p = line_pixel(x0, y0, x1, y1, k);
            &&& gap(2 * (n * p.0), 2 * (n * x0 + k * (x1 - x0))) <= n
            &&& gap(2 * (n * p.1), 2 * (n * y0 + k * (y1 - y0))) <= n
        }),
{
    let n = line_steps(x0, y0, x1, y1);
    lemma_towards_is_near(x0, x1, k, n);
    lemma_towards_is_near(y0, y1, k, n);
}

proof fn lemma_towards_is_near(a: int, b: int, k: int, n: int)
    requires
        0 <= k <= n,
        gap(a, b) <= n,
    ensures
        gap(2 * (n * towards(a, b, k, n)), 2 * (n * a + k * (b - a))) <= n,
{
    let g = gap(a, b);
    let q = travelled(a, b, k, n);
    if n > 0 {
        lemma_rounded_div(k * g, n, q);
        assert(n * (a + q) == n * a + n * q && n * (a - q) == n * a - n * q && k * (-g) == -(k
            * g)) by (nonlinear_arith);
        if a < b {
            assert(b - a == g);
        } else {
            assert(b - a == -g);
        }
    } else {
        assert(a == b);
        assert(n * towards(a, b, k, n) == 0 && n * a == 0 && k * (b - a) == 0)
            by (nonlinear_arith)
            requires
                n == 0,
                k == 0,
        ;
    }
}

impl SoftCanvas {
    /// Draws the line from (`x0`, `y0`) to (`x1`, `y1`) with a round brush of half-width `hw`.
    /// A negative half-width draws nothing.
    pub fn thick_line(
        &mut self,
        x0: i32,
        y0: i32,
        x1: i32,
        y1: i32,
        r: u8,
        g: u8,
        b: u8,
        hw: i32,
    )
        requires
            old(self).wf(),
            hw != i32::MIN,
            brush_fits(hw as int, x0 as int),
            brush_fits(hw as int, y0 as int),
            brush_fits(hw as int, x1 as int),
            brush_fits(hw as int, y1 as int),
        ensures
            final(self).painted(
                old(self),
                |x: int, y: int|
                    on_thick_line(x0 as int, y0 as int, x1 as int, y1 as int, hw as int, x, y),
                (r, g, b),
            ),
    {
        let ghost (gx0, gy0, gx1, gy1) = (x0 as int, y0 as int, x1 as int, y1 as int);
        let ghost w = hw as int;
        let mut dy: i32 = -hw;
        while dy <= hw
            invariant
                (gx0, gy0, gx1, gy1) == (x0 as int, y0 as int, x1 as int, y1 as int),
                w == hw,
                -w <= dy,
                0 <= w ==> dy <= w + 1,
                w < 0 ==> dy == -w,
                brush_fits(w, gx0),
                brush_fits(w, gy0),
                brush_fits(w, gx1),
                brush_fits(w, gy1),
                self.painted(
                    old(self),
                    |x: int, y: int| brushed_before(gx0, gy0, gx1, gy1, w, -w, dy as int, x, y),
                    (r, g, b),
                ),
            decreases hw - dy + 1,
        {
            let mut dx: i32 = -hw;
            while dx <= hw
                invariant
                    (gx0, gy0, gx1, gy1) == (x0 as int, y0 as int, x1 as int, y1 as int),
                    w == hw,
                    -w <= dy <= w,
                    -w <= dx <= w + 1,
                    brush_fits(w, gx0),
                    brush_fits(w, gy0),
                    brush_fits(w, gx1),
                    brush_fits(w, gy1),
                    self.painted(
                        old(self),
                        |x: int, y: int|
                            brushed_before(gx0, gy0, gx1, gy1, w, dx as int, dy as int, x, y),
                        (r, g, b),
                    ),
                decreases hw - dx + 1,
            {
                let ghost (bx, by) = (dx as int, dy as int);
                let ghost before = *self;
                assert(0 <= bx * bx <= w * w && 0 <= by * by <= w * w && w <= w * w)
                    by (nonlinear_arith)
                    requires
                        -w <= bx <= w,
                        -w <= by <= w,
                ;
                if dx * dx + dy * dy <= hw * hw + hw {
                    self.line1(x0 + dx, y0 + dy, x1 + dx, y1 + dy, r, g, b);
                }
                assert forall|x: int, y: int| #[trigger] self.in_frame(x, y) implies self.at(x, y)
                    == if brushed_before(gx0, gy0, gx1, gy1, w, bx + 1, by, x, y)
                    && old(self).reachable(x, y) {
                    (r, g, b, 255u8)
                } else {
                    old(self).at(x, y)
                } by {
                    assert(before.in_frame(x, y));
                    law_line_moves_with_its_ends(gx0, gy0, gx1, gy1, bx, by, x - bx, y - by);
                    lemma_next_offset(gx0, gy0, gx1, gy1, w, bx, by, x, y);
                }
                dx = dx + 1;
            }
            assert forall|x: int, y: int| #[trigger] self.in_frame(x, y) implies self.at(x, y)
                == if brushed_before(gx0, gy0, gx1, gy1, w, -w, dy + 1, x, y)
                && old(self).reachable(x, y) {
                (r, g, b, 255u8)
            } else {
                old(self).at(x, y)
            } by {
                lemma_next_row(gx0, gy0, gx1, gy1, w, dy as int, x, y);
            }
            dy = dy + 1;
        }
        assert forall|x: int, y: int| #[trigger] self.in_frame(x, y) implies self.at(x, y)
            == if on_thick_line(gx0, gy0, gx1, gy1, w, x, y) && old(self).reachable(x, y) {
            (r, g, b, 255u8)
        } else {
            old(self).at(x, y)
        } by {
            lemma_all_rows(gx0, gy0, gx1, gy1, w, dy as int, x, y);
        }
    }
}

/// The brush can be moved to both sides of coordinate `c`, and the squares that it compares
/// can be computed, in `i32`.
pub open spec fn brush_fits(hw: int, c: int) -> bool {
    hw >= 0 ==> 2 * (hw * hw) <= i32::MAX && i32::MIN <= c - hw && c + hw <= i32::MAX
}

proof fn lemma_next_offset(
    x0: int,
    y0: int,
    x1: int,
    y1: int,
    hw: int,
    cx: int,
    cy: int,
    x: int,
    y: int,
)
    ensures
        brushed_before(x0, y0, x1, y1, hw, cx + 1, cy, x, y) == (brushed_before(
            x0,
            y0,
            x1,
            y1,
            hw,
            cx,
            cy,
            x,
            y,
        ) || in_brush(cx, cy, hw) && on_line(x0, y0, x1, y1, x - cx, y - cy)),
{
}

proof fn lemma_next_row(x0: int, y0: int, x1: int, y1: int, hw: int, cy: int, x: int, y: int)
    ensures
        brushed_before(x0, y0, x1, y1, hw, -hw, cy + 1, x, y) == brushed_before(
            x0,
            y0,
            x1,
            y1,
            hw,
            hw + 1,
            cy,
            x,
            y,
        ),
{
}

proof fn lemma_all_rows(x0: int, y0: int, x1: int, y1: int, hw: int, cy: int, x: int, y: int)
    requires
        cy > hw,
    ensures
        brushed_before(x0, y0, x1, y1, hw, -hw, cy, x, y) == on_thick_line(
            x0,
            y0,
            x1,
            y1,
            hw,
            x,
            y,
        ),
{
}

/// A brush of half-width zero draws the thin line.
pub proof fn law_thinnest_brush_draws_the_line(x0: int, y0: int, x1: int, y1: int, x: int, y: int)
    ensures
        on_thick_line(x0, y0, x1, y1, 0, x, y) == on_line(x0, y0, x1, y1, x, y),
{
    assert(in_brush(0, 0, 0));
    if on_thick_line(x0, y0, x1, y1, 0, x, y) {
        let (dx, dy) = choose|dx: int, dy: int| #[trigger]
            in_brush(dx, dy, 0) && on_line(x0, y0, x1, y1, x - dx, y - dy);
        assert(dx == 0 && dy == 0);
    }
    if on_line(x0, y0, x1, y1, x, y) {
        assert(on_line(x0, y0, x1, y1, x - 0, y - 0));
    }
}

/// A wider brush touches every pixel that a narrower one does.
pub proof fn law_wider_brush_covers_more(
    x0: int,
    y0: int,
    x1: int,
    y1: int,
    narrow: int,
    wide: int,
    x: int,
    y: int,
)
    requires
        narrow <= wide,
        on_thick_line(x0, y0, x1, y1, narrow, x, y),
    ensures
        on_thick_line(x0, y0, x1, y1, wide, x, y),
{
    let (dx, dy) = choose|dx: int, dy: int| #[trigger]
        in_brush(dx, dy, narrow) && on_line(x0, y0, x1, y1, x - dx, y - dy);
    assert(narrow * narrow <= wide * wide) by (nonlinear_arith)
        requires
            0 <= narrow <= wide,
    ;
    assert(in_brush(dx, dy, wide));
}

/// Which pixels make up a line. Along the longer extent there is one pixel for every step
/// between the two ends. Along the shorter one it is the pixel closest to the straight segment,
/// and of two that are equally close the one further from the start.
pub proof fn law_line_takes_the_closest_pixels(
    x0: int,
    y0: int,
    x1: int,
    y1: int,
    x: int,
    y: int,
)
    ensures
        ({
            let (a, b) = (abs(x1 - x0) as int, abs(y1 - y0) as int);
            let (i, j) = (abs(x - x0) as int, abs(y - y0) as int);
            on_line(x0, y0, x1, y1, x, y) <==> {
                &&& x0 <= x <= x1 || x1 <= x <= x0
                &&& y0 <= y <= y1 || y1 <= y <= y0
                &&& 0 < a && b <= a ==> -a <= 2 * (i * b - j * a) < a
                &&& a < b ==> -b <= 2 * (j * a - i * b) < b
            }
        }),
{
    let (a, b) = (abs(x1 - x0) as int, abs(y1 - y0) as int);
    let (i, j) = (abs(x - x0) as int, abs(y - y0) as int);
    let n = line_steps(x0, y0, x1, y1);
    if on_line(x0, y0, x1, y1, x, y) {
        law_line_stays_between_its_ends(x0, y0, x1, y1, x, y);
        let k = choose|k: int| 0 <= k < n + 1 && #[trigger] line_pixel(x0, y0, x1, y1, k) == (x, y);
        lemma_travelled_bounds(x0, x1, k, n);
        lemma_travelled_bounds(y0, y1, k, n);
        if 0 < a && b <= a {
            lemma_travelled_major(x0, x1, k);
            lemma_rounded_div(k * b, a, j);
            assert(a * j == j * a) by (nonlinear_arith);
        } else if a < b {
            lemma_travelled_major(y0, y1, k);
            lemma_rounded_div(k * a, b, i);
            assert(b * i == i * b) by (nonlinear_arith);
        }
    }
    if (x0 <= x <= x1 || x1 <= x <= x0) && (y0 <= y <= y1 || y1 <= y <= y0) {
        if 0 < a && b <= a {
            if -a <= 2 * (i * b - j * a) < a {
                lemma_travelled_major(x0, x1, i);
                lemma_rounded_div(i * b, a, j);
                assert(a * j == j * a) by (nonlinear_arith);
                assert(line_pixel(x0, y0, x1, y1, i) == (x, y));
            }
        } else if a < b {
            if -b <= 2 * (j * a - i * b) < b {
                lemma_travelled_major(y0, y1, j);
                lemma_rounded_div(j * a, b, i);
                assert(b * i == i * b) by (nonlinear_arith);
                assert(line_pixel(x0, y0, x1, y1, j) == (x, y));
            }
        } else {
            assert(line_pixel(x0, y0, x1, y1, 0) == (x, y));
        }
    }
}

/// A thick line covers exactly the pixels whose distance from some pixel of the thin line is at
/// most that of the brush.
pub proof fn law_thick_line_is_a_line_of_discs(
    x0: int,
    y0: int,
    x1: int,
    y1: int,
    hw: int,
    x: int,
    y: int,
)
    ensures
        on_thick_line(x0, y0, x1, y1, hw, x, y) <==> exists|px: int, py: int|
            {
                &&& #[trigger] on_line(x0, y0, x1, y1, px, py)
                &&& -hw <= x - px <= hw
                &&& -hw <= y - py <= hw
                &&& (x - px) * (x - px) + (y - py) * (y - py) <= hw * hw + hw
            },
{
    if on_thick_line(x0, y0, x1, y1, hw, x, y) {
        let (dx, dy) = choose|dx: int, dy: int| #[trigger]
            in_brush(dx, dy, hw) && on_line(x0, y0, x1, y1, x - dx, y - dy);
        let (px, py) = (x - dx, y - dy);
        assert(x - px == dx && y - py == dy);
        assert(on_line(x0, y0, x1, y1, px, py));
    }
    if exists|px: int, py: int|
        {
            &&& #[trigger] on_line(x0, y0, x1, y1, px, py)
            &&& -hw <= x - px <= hw
            &&& -hw <= y - py <= hw
            &&& (x - px) * (x - px) + (y - py) * (y - py) <= hw * hw + hw
        } {
        let (px, py) = choose|px: int, py: int|
            {
                &&& #[trigger] on_line(x0, y0, x1, y1, px, py)
                &&& -hw <= x - px <= hw
                &&& -hw <= y - py <= hw
                &&& (x - px) * (x - px) + (y - py) * (y - py) <= hw * hw + hw
            };
        let (dx, dy) = (x - px, y - py);
        assert(in_brush(dx, dy, hw));
        assert(x - dx == px && y - dy == py);
    }
}

/// A brush that draws nothing can be moved anywhere, and a brush that is not too wide to wherever
/// it keeps its half-width away from both ends of the numbers.
pub proof fn law_brush_fits_between_the_ends_of_the_numbers(hw: int, c: int)
    ensures
        hw < 0 ==> brush_fits(hw, c),
        0 <= hw <= 32767 ==> (brush_fits(hw, c) <==> i32::MIN + hw <= c <= i32::MAX - hw),
{
    assert(0 <= hw <= 32767 ==> 2 * (hw * hw) <= i32::MAX) by (nonlinear_arith);
}

} // verus!
