//! The curve on the canvas, as the camera sees it.
use vstd::prelude::*;

use crate::canvas::{Rgba, SoftCanvas};
#[allow(unused_imports)]
use crate::line::{
    brush_fits, law_line_holds_its_ends, law_thinnest_brush_draws_the_line,
    law_wider_brush_covers_more, on_thick_line,
};

verus! {

/// The widest half-width of the brush that draws the curve.
pub const MAX_HALF_WIDTH: i32 = 4;

/// The half-width that the curve is drawn with where the camera asks for `wanted`.
pub open spec fn brush_half_width(wanted: int) -> int {
    if wanted < 0 {
        0
    } else if wanted > MAX_HALF_WIDTH {
        MAX_HALF_WIDTH as int
    } else {
        wanted
    }
}

/// How many of the segments between `points` points are drawn where `up_to` are asked for.
pub open spec fn drawn_segments(points: int, up_to: int) -> int {
    if points == 0 {
        0
    } else if up_to < points - 1 {
        up_to
    } else {
        points - 1
    }
}

/// Whether the brush touches (`x`, `y`) on the way from point `i` to point `i + 1`.
pub open spec fn segment_covers(
    pixels: Seq<(i32, i32)>,
    i: int,
    hw: int,
    x: int,
    y: int,
) -> bool {
    on_thick_line(
        pixels[i].0 as int,
        pixels[i].1 as int,
        pixels[i + 1].0 as int,
        pixels[i + 1].1 as int,
        hw,
        x,
        y,
    )
}

/// What becomes of a pixel that was `before` when the first `n` segments are drawn in order:
/// it has the colour of the last segment that covers it.
pub open spec fn curve_pixel(
    before: Rgba,
    pixels: Seq<(i32, i32)>,
    colours: Seq<(u8, u8, u8)>,
    hw: int,
    n: int,
    x: int,
    y: int,
) -> Rgba
    decreases n,
{
    if n <= 0 {
        before
    } else if segment_covers(pixels, n - 1, hw, x, y) {
        (colours[n - 1].0, colours[n - 1].1, colours[n - 1].2, 255u8)
    } else {
        curve_pixel(before, pixels, colours, hw, n - 1, x, y)
    }
}

/// Whether the brush can be moved to both sides of point `p`.
pub open spec fn point_fits(p: (i32, i32), hw: int) -> bool {
    brush_fits(hw, p.0 as int) && brush_fits(hw, p.1 as int)
}

/// The brush of half-width `hw` can be moved along the first `n` segments.
pub open spec fn curve_fits(pixels: Seq<(i32, i32)>, n: int, hw: int) -> bool {
    n > 0 ==> forall|i: int| 0 <= i <= n ==> point_fits(#[trigger] pixels[i], hw)
}

fn half_width(weight: i32) -> (hw: i32)
    ensures
        hw == brush_half_width(weight as int),
{
    if weight < 0 {
        0
    } else if weight > MAX_HALF_WIDTH {
        MAX_HALF_WIDTH
    } else {
        weight
    }
}

fn segments_to_draw(points: usize, up_to: usize) -> (n: usize)
    ensures
        n == drawn_segments(points as int, up_to as int),
{
    let last: usize = points.saturating_sub(1);
    if up_to < last {
        up_to
    } else {
        last
    }
}

/// Whether the first `up_to` segments of the curve can be drawn: whether no point of theirs is
/// so far out that a pixel position under the brush could not be counted in `i32`.
pub fn can_draw_curve(pixels: &[(i32, i32)], up_to: usize, weight: i32) -> (fits: bool)
    ensures
        fits == curve_fits(
            pixels@,
            drawn_segments(pixels@.len() as int, up_to as int),
            brush_half_width(weight as int),
        ),
{
    let n: usize = segments_to_draw(pixels.len(), up_to);
    let hw: i32 = half_width(weight);
    if n == 0 {
        return true;
    }
    assert(2 * (hw * hw) <= i32::MAX) by (nonlinear_arith)
        requires
            0 <= hw <= 4,
    ;
    let mut i: usize = 0;
    while i <= n
        invariant
            0 < n < pixels@.len(),
            n == drawn_segments(pixels@.len() as int, up_to as int),
            0 <= hw <= 4,
            hw == brush_half_width(weight as int),
            2 * (hw * hw) <= i32::MAX,
            i <= n + 1,
            forall|j: int| 0 <= j < i ==> point_fits(#[trigger] pixels@[j], hw as int),
        decreases n + 1 - i,
    {
        let (x, y) = pixels[i];
        if x < i32::MIN + hw || x > i32::MAX - hw || y < i32::MIN + hw || y > i32::MAX - hw {
            assert(!point_fits(pixels@[i as int], hw as int));
            return false;
        }
        i = i + 1;
    }
    true
}

impl SoftCanvas {
    /// The canvas is `before` with the first `n` segments of the curve drawn over it.
    pub open spec fn shows_curve(
        &self,
        before: &SoftCanvas,
        pixels: Seq<(i32, i32)>,
        colours: Seq<(u8, u8, u8)>,
        hw: int,
        n: int,
    ) -> bool {
        &&& self.wf()
        &&& self.w == before.w
        &&& self.h == before.h
        &&& forall|x: int, y: int| #[trigger]
            self.in_frame(x, y) ==> self.at(x, y) == if before.reachable(x, y) {
                curve_pixel(before.at(x, y), pixels, colours, hw, n, x, y)
            } else {
                before.at(x, y)
            }
    }

    /// Draws the first `up_to` segments of the curve, each over the ones before it.
    ///
    /// `pixels` holds the points of the curve where the camera puts them on the canvas, and
    /// `colours` one colour per segment. `weight` is the half-width that the camera asks for;
    /// it is kept between zero and `MAX_HALF_WIDTH`.
    pub fn draw_curve_with_camera(
        &mut self,
        pixels: &[(i32, i32)],
        colours: &[(u8, u8, u8)],
        up_to: usize,
        weight: i32,
    )
        requires
            old(self).wf(),
            drawn_segments(pixels@.len() as int, up_to as int) <= colours@.len(),
            curve_fits(
                pixels@,
                drawn_segments(pixels@.len() as int, up_to as int),
                brush_half_width(weight as int),
            ),
        ensures
            final(self).shows_curve(
                old(self),
                pixels@,
                colours@,
                brush_half_width(weight as int),
                drawn_segments(pixels@.len() as int, up_to as int),
            ),
    {
        let n: usize = segments_to_draw(pixels.len(), up_to);
        let hw: i32 = half_width(weight);
        let mut i: usize = 0;
        while i < n
            invariant
                i <= n,
                n == drawn_segments(pixels@.len() as int, up_to as int),
                n <= colours@.len(),
                hw == brush_half_width(weight as int),
                curve_fits(pixels@, n as int, hw as int),
                self.shows_curve(old(self), pixels@, colours@, hw as int, i as int),
            decreases n - i,
        {
            let (x0, y0) = pixels[i];
            let (x1, y1) = pixels[i + 1];
            let (r, g, b) = colours[i];
            let ghost before = *self;
            assert(point_fits(pixels@[i as int], hw as int));
            assert(point_fits(pixels@[i + 1], hw as int));
            self.thick_line(x0, y0, x1, y1, r, g, b, hw);
            assert forall|x: int, y: int| #[trigger] self.in_frame(x, y) implies self.at(x, y)
                == if old(self).reachable(x, y) {
                curve_pixel(old(self).at(x, y), pixels@, colours@, hw as int, i + 1, x, y)
            } else {
                old(self).at(x, y)
            } by {
                assert(before.in_frame(x, y));
            }
            i = i + 1;
        }
    }
}

/// A pixel that no segment covers keeps its colour.
pub proof fn law_uncovered_pixel_is_kept(
    before: Rgba,
    pixels: Seq<(i32, i32)>,
    colours: Seq<(u8, u8, u8)>,
    hw: int,
    n: int,
    x: int,
    y: int,
)
    requires
        forall|i: int| 0 <= i < n ==> !#[trigger] segment_covers(pixels, i, hw, x, y),
    ensures
        curve_pixel(before, pixels, colours, hw, n, x, y) == before,
    decreases n,
{
    if n > 0 {
        law_uncovered_pixel_is_kept(before, pixels, colours, hw, n - 1, x, y);
    }
}

/// A pixel that some segment covers has the colour of the last such segment, whatever it was
/// before.
pub proof fn law_last_segment_is_on_top(
    before: Rgba,
    pixels: Seq<(i32, i32)>,
    colours: Seq<(u8, u8, u8)>,
    hw: int,
    n: int,
    last: int,
    x: int,
    y: int,
)
    requires
        0 <= last < n,
        segment_covers(pixels, last, hw, x, y),
        forall|i: int| last < i < n ==> !#[trigger] segment_covers(pixels, i, hw, x, y),
    ensures
        curve_pixel(before, pixels, colours, hw, n, x, y) == (
            colours[last].0,
            colours[last].1,
            colours[last].2,
            255u8,
        ),
    decreases n,
{
    if last < n - 1 {
        law_last_segment_is_on_top(before, pixels, colours, hw, n - 1, last, x, y);
    }
}

/// Drawing the curve over an earlier, shorter drawing of it leaves nothing else than drawing it
/// at once.
pub proof fn law_longer_drawing_hides_a_shorter_one(
    before: Rgba,
    pixels: Seq<(i32, i32)>,
    colours: Seq<(u8, u8, u8)>,
    hw: int,
    m: int,
    n: int,
    x: int,
    y: int,
)
    requires
        0 <= m <= n,
    ensures
        curve_pixel(before, pixels, colours, hw, n, x, y) == curve_pixel(
            curve_pixel(before, pixels, colours, hw, m, x, y),
            pixels,
            colours,
            hw,
            n,
            x,
            y,
        ),
    decreases n,
{
    if m < n {
        law_longer_drawing_hides_a_shorter_one(before, pixels, colours, hw, m, n - 1, x, y);
    } else if n > 0 && !segment_covers(pixels, n - 1, hw, x, y) {
        law_longer_drawing_hides_a_shorter_one(before, pixels, colours, hw, n - 1, n - 1, x, y);
    }
}

/// A pixel of a drawn curve is as it was, or has the colour of one of the drawn segments.
pub proof fn law_curve_has_its_own_colours(
    before: Rgba,
    pixels: Seq<(i32, i32)>,
    colours: Seq<(u8, u8, u8)>,
    hw: int,
    n: int,
    x: int,
    y: int,
)
    ensures
        ({
            let p = curve_pixel(before, pixels, colours, hw, n, x, y);
            p == before || exists|i: int|
                0 <= i < n && p == ((#[trigger] colours[i]).0, colours[i].1, colours[i].2, 255u8)
        }),
    decreases n,
{
    if n > 0 {
        law_curve_has_its_own_colours(before, pixels, colours, hw, n - 1, x, y);
        if segment_covers(pixels, n - 1, hw, x, y) {
            let c = colours[n - 1];
            assert(curve_pixel(before, pixels, colours, hw, n, x, y) == (c.0, c.1, c.2, 255u8));
        }
    }
}

/// What can be done to a canvas.
pub enum CanvasOp {
    /// `clear`.
    Clear,
    /// `put`, `line1` or `thick_line`: one shape in one colour.
    Paint { shape: spec_fn(int, int) -> bool, colour: (u8, u8, u8) },
    /// `draw_curve_with_camera`: `n` segments.
    Curve { pixels: Seq<(i32, i32)>, colours: Seq<(u8, u8, u8)>, hw: int, n: int },
}

impl CanvasOp {
    /// `after` is `before` with this done to it.
    pub open spec fn effect(self, before: SoftCanvas, after: SoftCanvas) -> bool {
        match self {
            CanvasOp::Clear => {
                &&& after.wf()
                &&& after.w == before.w
                &&& after.h == before.h
                &&& after.buf@ == Seq::new(before.buf@.len(), |i: int| 0u8)
            },
            CanvasOp::Paint { shape, colour } => after.painted(&before, shape, colour),
            CanvasOp::Curve { pixels, colours, hw, n } => after.shows_curve(
                &before,
                pixels,
                colours,
                hw,
                n,
            ),
        }
    }

    /// Whether this draws anything in the colour `c`.
    pub open spec fn uses(self, c: (u8, u8, u8)) -> bool {
        match self {
            CanvasOp::Clear => false,
            CanvasOp::Paint { shape, colour } => colour == c,
            CanvasOp::Curve { pixels, colours, hw, n } => exists|i: int|
                0 <= i < n && #[trigger] colours[i] == c,
        }
    }
}

/// The states of a canvas that starts blank and has `ops` done to it one after the other.
pub open spec fn is_history(states: Seq<SoftCanvas>, ops: Seq<CanvasOp>) -> bool {
    &&& states.len() == ops.len() + 1
    &&& states[0].wf()
    &&& states[0].buf@ == Seq::new(states[0].buf@.len(), |i: int| 0u8)
    &&& forall|k: int|
        0 <= k < ops.len() ==> (#[trigger] ops[k]).effect(states[k], states[k + 1])
}

/// A pixel is transparent black, or it is opaque and has a colour that one of the first `n` of
/// `ops` uses.
pub open spec fn blank_or_drawn(p: Rgba, ops: Seq<CanvasOp>, n: int) -> bool {
    p == (0u8, 0u8, 0u8, 0u8) || p.3 == 255 && exists|k: int|
        0 <= k < n && (#[trigger] ops[k]).uses((p.0, p.1, p.2))
}

/// However a new canvas is drawn on and cleared, it keeps its size and its four bytes per
/// pixel, and each of its pixels is either transparent black or opaque, in a colour that
/// something was drawn in.
pub proof fn law_pixels_are_blank_or_opaque(
    states: Seq<SoftCanvas>,
    ops: Seq<CanvasOp>,
    n: int,
    x: int,
    y: int,
)
    requires
        is_history(states, ops),
        0 <= n < states.len(),
    ensures
        states[n].wf(),
        states[n].w == states[0].w,
        states[n].h == states[0].h,
        states[n].in_frame(x, y) ==> blank_or_drawn(states[n].at(x, y), ops, n),
    decreases n,
{
    let now = states[n];
    if n == 0 {
        if now.in_frame(x, y) {
            crate::canvas::lemma_offset_in_buffer(now.w as int, now.h as int, x, y);
        }
    } else {
        let was = states[n - 1];
        let op = ops[n - 1];
        law_pixels_are_blank_or_opaque(states, ops, n - 1, x, y);
        assert(op.effect(was, states[n - 1 + 1]));
        if now.in_frame(x, y) {
            assert(was.in_frame(x, y));
            let (p, q) = (was.at(x, y), now.at(x, y));
            match op {
                CanvasOp::Clear => {
                    crate::canvas::lemma_offset_in_buffer(now.w as int, now.h as int, x, y);
                },
                CanvasOp::Paint { shape, colour } => {
                    if q != p {
                        assert(ops[n - 1].uses((q.0, q.1, q.2)));
                    }
                },
                CanvasOp::Curve { pixels, colours, hw, n: count } => {
                    law_curve_has_its_own_colours(p, pixels, colours, hw, count, x, y);
                    if q != p {
                        let i = choose|i: int|
                            0 <= i < count && q == (
                                (#[trigger] colours[i]).0,
                                colours[i].1,
                                colours[i].2,
                                255u8,
                            );
                        assert(colours[i] == (q.0, q.1, q.2));
                        assert(ops[n - 1].uses((q.0, q.1, q.2)));
                    }
                },
            }
        }
    }
}

/// The line is as thick as the camera asks for, but neither thinner than one pixel nor wider
/// than a half-width of 4.
pub proof fn law_half_width_is_kept_in_range(wanted: int)
    ensures
        0 <= wanted <= 4 ==> brush_half_width(wanted) == wanted,
        wanted < 0 ==> brush_half_width(wanted) == 0,
        wanted > 4 ==> brush_half_width(wanted) == 4,
{
}

/// As many segments are drawn as are asked for, as long as there are that many, and all of them
/// otherwise. There is one segment less than there are points.
pub proof fn law_asked_segments_are_drawn(points: int, up_to: int)
    requires
        0 <= points,
        0 <= up_to,
    ensures
        up_to < points ==> drawn_segments(points, up_to) == up_to,
        0 < points <= up_to ==> drawn_segments(points, up_to) == points - 1,
        points == 0 ==> drawn_segments(points, up_to) == 0,
{
}

/// A curve can be drawn exactly where every point on it keeps the width of the brush away from
/// both ends of the numbers.
pub proof fn law_curve_fits_between_the_ends_of_the_numbers(
    pixels: Seq<(i32, i32)>,
    n: int,
    hw: int,
)
    requires
        0 <= hw <= 4,
    ensures
        n <= 0 ==> curve_fits(pixels, n, hw),
        n > 0 ==> (curve_fits(pixels, n, hw) <==> forall|i: int|
            0 <= i <= n ==> {
                &&& i32::MIN + hw <= (#[trigger] pixels[i]).0 <= i32::MAX - hw
                &&& i32::MIN + hw <= pixels[i].1 <= i32::MAX - hw
            }),
{
    assert(2 * (hw * hw) <= i32::MAX) by (nonlinear_arith)
        requires
            0 <= hw <= 4,
    ;
    if n > 0 && curve_fits(pixels, n, hw) {
        assert forall|i: int| 0 <= i <= n implies {
            &&& i32::MIN + hw <= (#[trigger] pixels[i]).0 <= i32::MAX - hw
            &&& i32::MIN + hw <= pixels[i].1 <= i32::MAX - hw
        } by {
            assert(point_fits(pixels[i], hw));
        }
    }
}

/// Every drawn segment shows. Wherever the thick line from one point to the next lies on the
/// canvas, the pixel has the opaque colour of that segment, unless a later segment lies over it.
pub proof fn law_every_segment_is_drawn(
    before: SoftCanvas,
    after: SoftCanvas,
    pixels: Seq<(i32, i32)>,
    colours: Seq<(u8, u8, u8)>,
    hw: int,
    n: int,
    i: int,
    x: int,
    y: int,
)
    requires
        after.shows_curve(&before, pixels, colours, hw, n),
        0 <= i < n,
        0 <= x < before.w <= i32::MAX,
        0 <= y < before.h <= i32::MAX,
        on_thick_line(
            pixels[i].0 as int,
            pixels[i].1 as int,
            pixels[i + 1].0 as int,
            pixels[i + 1].1 as int,
            hw,
            x,
            y,
        ),
        forall|j: int|
            i < j < n ==> !on_thick_line(
                (#[trigger] pixels[j]).0 as int,
                pixels[j].1 as int,
                pixels[j + 1].0 as int,
                pixels[j + 1].1 as int,
                hw,
                x,
                y,
            ),
    ensures
        ({
            let o = (y * before.w + x) * 4;
            let b = after.buf@;
            (b[o], b[o + 1], b[o + 2]) == colours[i] && b[o + 3] == 255
        }),
{
    assert(after.in_frame(x, y));
    assert forall|j: int| i < j < n implies !#[trigger] segment_covers(pixels, j, hw, x, y) by {
        let p = pixels[j];
    }
    law_last_segment_is_on_top(before.at(x, y), pixels, colours, hw, n, i, x, y);
}

/// Nothing but the segments is drawn: a pixel that none of the thick lines touches keeps its
/// four bytes, and the canvas keeps its size.
pub proof fn law_nothing_is_drawn_beside_the_segments(
    before: SoftCanvas,
    after: SoftCanvas,
    pixels: Seq<(i32, i32)>,
    colours: Seq<(u8, u8, u8)>,
    hw: int,
    n: int,
    x: int,
    y: int,
)
    requires
        after.shows_curve(&before, pixels, colours, hw, n),
        0 <= x < before.w,
        0 <= y < before.h,
        forall|j: int|
            0 <= j < n ==> !on_thick_line(
                (#[trigger] pixels[j]).0 as int,
                pixels[j].1 as int,
                pixels[j + 1].0 as int,
                pixels[j + 1].1 as int,
                hw,
                x,
                y,
            ),
    ensures
        after.w == before.w,
        after.h == before.h,
        after.buf@.len() == before.w * before.h * 4,
        ({
            let o = (y * before.w + x) * 4;
            let (a, b) = (after.buf@, before.buf@);
            a[o] == b[o] && a[o + 1] == b[o + 1] && a[o + 2] == b[o + 2] && a[o + 3] == b[o + 3]
        }),
{
    assert(after.in_frame(x, y));
    assert forall|j: int| 0 <= j < n implies !#[trigger] segment_covers(pixels, j, hw, x, y) by {
        let p = pixels[j];
    }
    law_uncovered_pixel_is_kept(before.at(x, y), pixels, colours, hw, n, x, y);
}

/// The two ends of a line are under the brush that draws it.
pub proof fn lemma_thick_line_holds_its_ends(x0: int, y0: int, x1: int, y1: int, hw: int)
    requires
        0 <= hw,
    ensures
        on_thick_line(x0, y0, x1, y1, hw, x0, y0),
        on_thick_line(x0, y0, x1, y1, hw, x1, y1),
{
    law_line_holds_its_ends(x0, y0, x1, y1);
    law_thinnest_brush_draws_the_line(x0, y0, x1, y1, x0, y0);
    law_thinnest_brush_draws_the_line(x0, y0, x1, y1, x1, y1);
    law_wider_brush_covers_more(x0, y0, x1, y1, 0, hw, x0, y0);
    law_wider_brush_covers_more(x0, y0, x1, y1, 0, hw, x1, y1);
}

/// The newest segment is on the picture from end to end: both of its ends, where they are on
/// the canvas, have its opaque colour.
pub proof fn law_newest_segment_is_on_the_picture(
    before: SoftCanvas,
    after: SoftCanvas,
    pixels: Seq<(i32, i32)>,
    colours: Seq<(u8, u8, u8)>,
    hw: int,
    n: int,
    end: int,
)
    requires
        after.shows_curve(&before, pixels, colours, hw, n),
        0 <= hw,
        0 < n,
        end == n - 1 || end == n,
        0 <= pixels[end].0 < before.w <= i32::MAX,
        0 <= pixels[end].1 < before.h <= i32::MAX,
    ensures
        ({
            let o = (pixels[end].1 * before.w + pixels[end].0) * 4;
            let b = after.buf@;
            (b[o], b[o + 1], b[o + 2]) == colours[n - 1] && b[o + 3] == 255
        }),
{
    let (p, q) = (pixels[n - 1], pixels[n]);
    lemma_thick_line_holds_its_ends(p.0 as int, p.1 as int, q.0 as int, q.1 as int, hw);
    law_every_segment_is_drawn(
        before,
        after,
        pixels,
        colours,
        hw,
        n,
        n - 1,
        pixels[end].0 as int,
        pixels[end].1 as int,
    );
}

/// Drawing some segments and then drawing further ones over them shows the same as drawing all
/// of them at once: the further ones are a curve of their own, with points and colours of their
/// own.
pub proof fn law_segments_are_drawn_one_after_the_other(
    before: SoftCanvas,
    between: SoftCanvas,
    after: SoftCanvas,
    whole: SoftCanvas,
    pixels: Seq<(i32, i32)>,
    colours: Seq<(u8, u8, u8)>,
    hw: int,
    m: int,
    n: int,
    x: int,
    y: int,
)
    requires
        0 <= m <= n,
        n < pixels.len(),
        n <= colours.len(),
        between.shows_curve(&before, pixels, colours, hw, m),
        after.shows_curve(&between, pixels.skip(m), colours.skip(m), hw, n - m),
        whole.shows_curve(&before, pixels, colours, hw, n),
        whole.in_frame(x, y),
    ensures
        after.at(x, y) == whole.at(x, y),
{
    assert(between.in_frame(x, y) && after.in_frame(x, y));
    lemma_split_curve(before.at(x, y), pixels, colours, hw, m, n, x, y);
}

proof fn lemma_split_curve(
    before: Rgba,
    pixels: Seq<(i32, i32)>,
    colours: Seq<(u8, u8, u8)>,
    hw: int,
    m: int,
    n: int,
    x: int,
    y: int,
)
    requires
        0 <= m <= n,
        n < pixels.len(),
        n <= colours.len(),
    ensures
        curve_pixel(before, pixels, colours, hw, n, x, y) == curve_pixel(
            curve_pixel(before, pixels, colours, hw, m, x, y),
            pixels.skip(m),
            colours.skip(m),
            hw,
            n - m,
            x,
            y,
        ),
    decreases n,
{
    if m < n {
        lemma_split_curve(before, pixels, colours, hw, m, n - 1, x, y);
        assert(pixels.skip(m)[n - m - 1] == pixels[n - 1]);
        assert(pixels.skip(m)[n - m] == pixels[n]);
        assert(colours.skip(m)[n - m - 1] == colours[n - 1]);
    }
}

} // verus!
