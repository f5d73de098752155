//! A software canvas: RGBA bytes in row-major order.
use vstd::prelude::*;

verus! {

/// One pixel: red, green, blue, alpha.
pub type Rgba = (u8, u8, u8, u8);

/// A canvas of `w` by `h` pixels.
pub struct SoftCanvas {
    pub w: usize,
    pub h: usize,
    /// RGBA, row-major.
    pub buf: Vec<u8>,
}

/// Where the four bytes of pixel (`x`, `y`) begin in a canvas of width `w`.
pub open spec fn pixel_offset(w: int, x: int, y: int) -> int {
    (y * w + x) * 4
}

impl SoftCanvas {
    /// The buffer holds exactly four bytes for each pixel.
    pub open spec fn wf(&self) -> bool {
        self.buf@.len() == self.w * self.h * 4
    }

    /// Whether (`x`, `y`) is a pixel of the canvas.
    pub open spec fn in_frame(&self, x: int, y: int) -> bool {
        0 <= x < self.w && 0 <= y < self.h
    }

    /// Whether `put` can reach (`x`, `y`). The bounds are compared as `i32`: on a canvas no
    /// wider and no higher than `i32::MAX` every pixel of the canvas can be reached.
    pub open spec fn reachable(&self, x: int, y: int) -> bool {
        0 <= x < (self.w as i32) && 0 <= y < (self.h as i32)
    }

    /// The pixel at (`x`, `y`).
    pub open spec fn at(&self, x: int, y: int) -> Rgba {
        let o = pixel_offset(self.w as int, x, y);
        (self.buf@[o], self.buf@[o + 1], self.buf@[o + 2], self.buf@[o + 3])
    }

    /// The canvas is `before` with every reachable pixel of `shape` set to the opaque colour
    /// `c`, and all other pixels as they were.
    pub open spec fn painted(
        &self,
        before: &SoftCanvas,
        shape: spec_fn(int, int) -> bool,
        c: (u8, u8, u8),
    ) -> bool {
        &&& self.wf()
        &&& self.w == before.w
        &&& self.h == before.h
        &&& forall|x: int, y: int| #[trigger]
            self.in_frame(x, y) ==> self.at(x, y) == if shape(x, y) && before.reachable(x, y) {
                (c.0, c.1, c.2, 255u8)
            } else {
                before.at(x, y)
            }
    }

    /// A canvas whose pixels are all transparent black.
    pub fn new(w: usize, h: usize) -> (canvas: Self)
        requires
            w * h * 4 <= isize::MAX,
        ensures
            canvas.wf(),
            canvas.w == w,
            canvas.h == h,
            canvas.buf@ == Seq::new((w * h * 4) as nat, |i: int| 0u8),
    {
        assert(w * h >= 0) by (nonlinear_arith)
            requires
                w >= 0,
                h >= 0,
        ;
        let buf: Vec<u8> = vec![0u8; w * h * 4];
        assert(buf@ =~= Seq::new((w * h * 4) as nat, |i: int| 0u8));
        Self { w, h, buf }
    }

    /// Sets every byte to zero.
    pub fn clear(&mut self)
        requires
            old(self).wf(),
        ensures
            final(self).wf(),
            final(self).w == old(self).w,
            final(self).h == old(self).h,
            final(self).buf@ == Seq::new(old(self).buf@.len(), |i: int| 0u8),
    {
        let mut i: usize = 0;
        while i < self.buf.len()
            invariant
                i <= self.buf@.len(),
                self.w == old(self).w,
                self.h == old(self).h,
                self.buf@.len() == old(self).buf@.len(),
                forall|k: int| 0 <= k < i ==> self.buf@[k] == 0u8,
            decreases self.buf@.len() - i,
        {
            self.buf.set(i, 0u8);
            i = i + 1;
        }
        assert(self.buf@ =~= Seq::new(old(self).buf@.len(), |i: int| 0u8));
    }

    /// Sets pixel (`x`, `y`) to an opaque colour. Positions off the canvas are ignored.
    pub fn put(&mut self, x: i32, y: i32, r: u8, g: u8, b: u8)
        requires
            old(self).wf(),
        ensures
            final(self).painted(old(self), |px: int, py: int| px == x && py == y, (r, g, b)),
    {
        if x < 0 || y < 0 || x >= #[verifier::truncate] (self.w as i32)
            || y >= #[verifier::truncate] (self.h as i32) {
            assert forall|px: int, py: int| #[trigger] self.in_frame(px, py) implies !(px == x
                && py == y && old(self).reachable(px, py)) by {}
            return ;
        }
        proof {
            lemma_offset_in_buffer(self.w as int, self.h as int, x as int, y as int);
            assert(self.buf.len() == self.buf@.len());
        }
        let i: usize = (y as usize * self.w + x as usize) * 4;
        self.buf.set(i, r);
        self.buf.set(i + 1, g);
        self.buf.set(i + 2, b);
        self.buf.set(i + 3, 255);
        assert forall|px: int, py: int| #[trigger] self.in_frame(px, py) implies self.at(px, py)
            == if px == x && py == y && old(self).reachable(px, py) {
            (r, g, b, 255u8)
        } else {
            old(self).at(px, py)
        } by {
            lemma_offset_in_buffer(self.w as int, self.h as int, px, py);
            if px != x || py != y {
                lemma_offsets_apart(self.w as int, x as int, y as int, px, py);
            }
        }
    }
}

/// The four bytes of a pixel lie inside the buffer.
pub proof fn lemma_offset_in_buffer(w: int, h: int, x: int, y: int)
    requires
        0 <= x < w,
        0 <= y < h,
    ensures
        0 <= y * w,
        0 <= pixel_offset(w, x, y),
        pixel_offset(w, x, y) + 4 <= w * h * 4,
{
    assert(0 <= y * w && (y + 1) * w <= h * w && (y + 1) * w == y * w + w && h * w == w * h)
        by (nonlinear_arith)
        requires
            0 <= x < w,
            0 <= y < h,
    ;
}

/// The bytes of two different pixels do not overlap.
pub proof fn lemma_offsets_apart(w: int, x0: int, y0: int, x1: int, y1: int)
    requires
        0 <= x0 < w,
        0 <= x1 < w,
        0 <= y0,
        0 <= y1,
        x0 != x1 || y0 != y1,
    ensures
        pixel_offset(w, x0, y0) + 4 <= pixel_offset(w, x1, y1) || pixel_offset(w, x1, y1) + 4
            <= pixel_offset(w, x0, y0),
{
    if y0 < y1 {
        assert((y0 + 1) * w <= y1 * w && (y0 + 1) * w == y0 * w + w) by (nonlinear_arith)
            requires
                y0 < y1,
                0 < w,
        ;
    } else if y1 < y0 {
        assert((y1 + 1) * w <= y0 * w && (y1 + 1) * w == y1 * w + w) by (nonlinear_arith)
            requires
                y1 < y0,
                0 < w,
        ;
    }
}

/// Painting sets the four bytes of every pixel of the shape to the colour and to full opacity,
/// and leaves the bytes of every other pixel as they were. Positions are compared with the size
/// of the canvas as `i32`.
pub proof fn law_painting_sets_the_shape_and_nothing_else(
    before: SoftCanvas,
    after: SoftCanvas,
    shape: spec_fn(int, int) -> bool,
    c: (u8, u8, u8),
    x: int,
    y: int,
)
    requires
        after.painted(&before, shape, c),
        0 <= x < before.w,
        0 <= y < before.h,
    ensures
        after.w == before.w,
        after.h == before.h,
        after.buf@.len() == before.w * before.h * 4,
        ({
            let o = (y * before.w + x) * 4;
            let (a, b) = (after.buf@, before.buf@);
            if shape(x, y) && x < (before.w as i32) && y < (before.h as i32) {
                a[o] == c.0 && a[o + 1] == c.1 && a[o + 2] == c.2 && a[o + 3] == 255
            } else {
                a[o] == b[o] && a[o + 1] == b[o + 1] && a[o + 2] == b[o + 2] && a[o + 3] == b[o
                    + 3]
            }
        }),
{
    assert(after.in_frame(x, y));
}

} // verus!
