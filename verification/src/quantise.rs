//! From canvas pixels to palette indices.
use vstd::prelude::*;

use crate::canvas::SoftCanvas;
#[allow(unused_imports)]
use crate::canvas::{lemma_offset_in_buffer, pixel_offset};
#[allow(unused_imports)]
use vstd::math::min;

verus! {

/// A palette entry: red, green, blue.
pub type Rgb = (u8, u8, u8);

/// The squared distance between two colours.
pub open spec fn distance(a: Rgb, b: Rgb) -> int {
    let dr = a.0 - b.0;
    let dg = a.1 - b.1;
    let db = a.2 - b.2;
    dr * dr + dg * dg + db * db
}

/// Entry `i` is the first of the palette entries that are closest to `c`.
pub open spec fn is_nearest(pal: Seq<Rgb>, c: Rgb, i: int) -> bool {
    &&& 0 <= i < pal.len()
    &&& forall|j: int| 0 <= j < pal.len() ==> distance(c, pal[i]) <= distance(c, #[trigger] pal[j])
    &&& forall|j: int| 0 <= j < i ==> distance(c, pal[i]) < distance(c, #[trigger] pal[j])
}

/// The position of the first of the entries closest to `c`; zero in an empty palette.
pub open spec fn nearest(pal: Seq<Rgb>, c: Rgb) -> int {
    if pal.len() == 0 {
        0
    } else {
        choose|i: int| is_nearest(pal, c, i)
    }
}

/// There is only one first closest entry.
pub proof fn law_nearest_is_unique(pal: Seq<Rgb>, c: Rgb, i: int)
    requires
        is_nearest(pal, c, i),
    ensures
        nearest(pal, c) == i,
{
    let k = nearest(pal, c);
    assert(is_nearest(pal, c, k));
    if k < i {
        assert(distance(c, pal[i]) < distance(c, pal[k]));
    } else if i < k {
        assert(distance(c, pal[k]) < distance(c, pal[i]));
    }
}

/// The position of the palette entry closest to `c`: the first one where several are equally
/// close, zero where there is none.
pub fn nearest_index(pal: &[Rgb], c: Rgb) -> (index: usize)
    ensures
        index == nearest(pal@, c),
        pal@.len() > 0 ==> is_nearest(pal@, c, index as int),
{
    let mut best: usize = 0;
    let mut best_distance: i32 = 0;
    let mut i: usize = 0;
    while i < pal.len()
        invariant
            i <= pal@.len(),
            i == 0 ==> best == 0,
            i > 0 ==> best < i && best_distance == distance(c, pal@[best as int]),
            forall|j: int| 0 <= j < i ==> best_distance <= distance(c, #[trigger] pal@[j]),
            forall|j: int| 0 <= j < best ==> best_distance < distance(c, #[trigger] pal@[j]),
        decreases pal@.len() - i,
    {
        let p: Rgb = pal[i];
        let dr: i32 = c.0 as i32 - p.0 as i32;
        let dg: i32 = c.1 as i32 - p.1 as i32;
        let db: i32 = c.2 as i32 - p.2 as i32;
        assert(0 <= dr * dr <= 65025 && 0 <= dg * dg <= 65025 && 0 <= db * db <= 65025)
            by (nonlinear_arith)
            requires
                -255 <= dr <= 255,
                -255 <= dg <= 255,
                -255 <= db <= 255,
        ;
        let d: i32 = dr * dr + dg * dg + db * db;
        if i == 0 || d < best_distance {
            best = i;
            best_distance = d;
        }
        i = i + 1;
    }
    proof {
        if pal@.len() > 0 {
            law_nearest_is_unique(pal@, c, best as int);
        }
    }
    best
}

/// How many canvas pixels go into one target pixel along an axis.
pub open spec fn block_size(size: int, target: int) -> int {
    if size / target < 1 {
        1
    } else {
        size / target
    }
}

/// `i`, kept below `size`.
pub open spec fn kept_below(i: int, size: int) -> int {
    if i < size {
        i
    } else {
        size - 1
    }
}

impl SoftCanvas {
    /// Byte `c` of pixel (`x`, `y`): 0 is red, 1 green, 2 blue.
    pub open spec fn channel(&self, x: int, y: int, c: int) -> int {
        self.buf@[pixel_offset(self.w as int, x, y) + c] as int
    }

    /// The sum of channel `c` over `count` pixels of row `y`, from column `x` on. Columns
    /// beyond the canvas repeat the last one.
    pub open spec fn row_sum(&self, c: int, x: int, y: int, count: int) -> int
        decreases count,
    {
        if count <= 0 {
            0
        } else {
            self.row_sum(c, x, y, count - 1) + self.channel(
                kept_below(x + count - 1, self.w as int),
                kept_below(y, self.h as int),
                c,
            )
        }
    }

    /// The sum of channel `c` over the box of `cols` by `rows` pixels with its corner at
    /// (`x`, `y`). Rows beyond the canvas repeat the last one.
    pub open spec fn box_sum(&self, c: int, x: int, y: int, cols: int, rows: int) -> int
        decreases rows,
    {
        if rows <= 0 {
            0
        } else {
            self.box_sum(c, x, y, cols, rows - 1) + self.row_sum(c, x, y + rows - 1, cols)
        }
    }

    /// The average of channel `c` over a box, rounded down.
    pub open spec fn box_mean(&self, c: int, x: int, y: int, cols: int, rows: int) -> int {
        self.box_sum(c, x, y, cols, rows) / (cols * rows)
    }

    /// The average colour of a box, each channel rounded down.
    pub open spec fn box_colour(&self, x: int, y: int, cols: int, rows: int) -> Rgb {
        (
            self.box_mean(0, x, y, cols, rows) as u8,
            self.box_mean(1, x, y, cols, rows) as u8,
            self.box_mean(2, x, y, cols, rows) as u8,
        )
    }

    /// The number of pixels of a box and the sums of its channels can be counted in `u32`.
    pub open spec fn box_fits(&self, x: int, y: int, cols: int, rows: int) -> bool {
        &&& cols * rows <= u32::MAX
        &&& self.box_sum(0, x, y, cols, rows) <= u32::MAX
        &&& self.box_sum(1, x, y, cols, rows) <= u32::MAX
        &&& self.box_sum(2, x, y, cols, rows) <= u32::MAX
    }

    proof fn lemma_row_sum_bounds(&self, c: int, x: int, y: int, part: int, count: int)
        requires
            part <= count,
        ensures
            self.row_sum(c, x, y, part) <= self.row_sum(c, x, y, count),
            0 <= count ==> 0 <= self.row_sum(c, x, y, count) <= 255 * count,
        decreases count,
    {
        if 0 < count {
            let shorter = if part < count {
                part
            } else {
                part - 1
            };
            self.lemma_row_sum_bounds(c, x, y, shorter, count - 1);
        }
    }

    pub proof fn lemma_box_sum_bounds(
        &self,
        c: int,
        x: int,
        y: int,
        cols: int,
        part: int,
        rows: int,
    )
        requires
            part <= rows,
            0 <= cols,
        ensures
            self.box_sum(c, x, y, cols, part) <= self.box_sum(c, x, y, cols, rows),
            0 <= rows ==> 0 <= self.box_sum(c, x, y, cols, rows) <= 255 * (cols * rows),
        decreases rows,
    {
        if 0 < rows {
            let shorter = if part < rows {
                part
            } else {
                part - 1
            };
            self.lemma_box_sum_bounds(c, x, y, cols, shorter, rows - 1);
            self.lemma_row_sum_bounds(c, x, y + rows - 1, cols, cols);
            assert(cols * rows == cols * (rows - 1) + cols) by (nonlinear_arith);
        } else {
            assert(rows == 0 ==> cols * rows == 0) by (nonlinear_arith);
        }
    }

    /// A sum that is still being made is no larger than the finished one.
    proof fn lemma_partial_sum(
        &self,
        c: int,
        x: int,
        y: int,
        cols: int,
        rows: int,
        row: int,
        col: int,
    )
        requires
            0 <= row < rows,
            0 <= col < cols,
        ensures
            0 <= self.box_sum(c, x, y, cols, row) + self.row_sum(c, x, y + row, col),
            self.box_sum(c, x, y, cols, row) + self.row_sum(c, x, y + row, col + 1)
                <= self.box_sum(c, x, y, cols, rows),
    {
        self.lemma_row_sum_bounds(c, x, y + row, col + 1, cols);
        self.lemma_row_sum_bounds(c, x, y + row, col, col);
        self.lemma_box_sum_bounds(c, x, y, cols, row, row);
        self.lemma_box_sum_bounds(c, x, y, cols, row + 1, rows);
        assert(self.box_sum(c, x, y, cols, row + 1) == self.box_sum(c, x, y, cols, row)
            + self.row_sum(c, x, y + row, cols));
    }

    proof fn lemma_mean_is_byte(&self, c: int, x: int, y: int, cols: int, rows: int)
        requires
            0 < cols,
            0 < rows,
        ensures
            0 < cols * rows,
            0 <= self.box_mean(c, x, y, cols, rows) <= 255,
    {
        self.lemma_box_sum_bounds(c, x, y, cols, rows, rows);
        let n = cols * rows;
        let s = self.box_sum(c, x, y, cols, rows);
        assert(0 < n) by (nonlinear_arith)
            requires
                0 < cols,
                0 < rows,
                n == cols * rows,
        ;
        assert(0 <= s / n <= 255) by (nonlinear_arith)
            requires
                0 < n,
                0 <= s <= 255 * n,
        ;
    }

    /// The average colour of the box of `cols` by `rows` pixels with its corner at (`x`, `y`).
    pub fn box_average(&self, x: usize, y: usize, cols: usize, rows: usize) -> (c: Rgb)
        requires
            self.wf(),
            self.w > 0,
            self.h > 0,
            cols > 0,
            rows > 0,
            x + cols <= usize::MAX,
            y + rows <= usize::MAX,
            self.box_fits(x as int, y as int, cols as int, rows as int),
        ensures
            c == self.box_colour(x as int, y as int, cols as int, rows as int),
            c.0 == self.box_mean(0, x as int, y as int, cols as int, rows as int),
            c.1 == self.box_mean(1, x as int, y as int, cols as int, rows as int),
            c.2 == self.box_mean(2, x as int, y as int, cols as int, rows as int),
    {
        let ghost (gx, gy, gc, gr) = (x as int, y as int, cols as int, rows as int);
        let mut sr: u32 = 0;
        let mut sg: u32 = 0;
        let mut sb: u32 = 0;
        let mut cnt: u32 = 0;
        let mut dy: usize = 0;
        assert(0 * gc == 0);
        while dy < rows
            invariant
                self.wf(),
                self.w > 0,
                self.h > 0,
                (gx, gy, gc, gr) == (x as int, y as int, cols as int, rows as int),
                gc > 0,
                gx + gc <= usize::MAX,
                gy + gr <= usize::MAX,
                self.box_fits(gx, gy, gc, gr),
                dy <= rows,
                cnt == gc * dy,
                sr == self.box_sum(0, gx, gy, gc, dy as int),
                sg == self.box_sum(1, gx, gy, gc, dy as int),
                sb == self.box_sum(2, gx, gy, gc, dy as int),
            decreases rows - dy,
        {
            let mut dx: usize = 0;
            while dx < cols
                invariant
                    self.wf(),
                    self.w > 0,
                    self.h > 0,
                    (gx, gy, gc, gr) == (x as int, y as int, cols as int, rows as int),
                    gx + gc <= usize::MAX,
                    gy + gr <= usize::MAX,
                    self.box_fits(gx, gy, gc, gr),
                    dy < rows,
                    dx <= cols,
                    cnt == gc * dy + dx,
                    sr == self.box_sum(0, gx, gy, gc, dy as int) + self.row_sum(
                        0,
                        gx,
                        gy + dy,
                        dx as int,
                    ),
                    sg == self.box_sum(1, gx, gy, gc, dy as int) + self.row_sum(
                        1,
                        gx,
                        gy + dy,
                        dx as int,
                    ),
                    sb == self.box_sum(2, gx, gy, gc, dy as int) + self.row_sum(
                        2,
                        gx,
                        gy + dy,
                        dx as int,
                    ),
                decreases cols - dx,
            {
                let sx: usize = if x + dx < self.w {
                    x + dx
                } else {
                    self.w - 1
                };
                let sy: usize = if y + dy < self.h {
                    y + dy
                } else {
                    self.h - 1
                };
                proof {
                    lemma_offset_in_buffer(self.w as int, self.h as int, sx as int, sy as int);
                    assert(self.buf.len() == self.buf@.len());
                    self.lemma_partial_sum(0, gx, gy, gc, gr, dy as int, dx as int);
                    self.lemma_partial_sum(1, gx, gy, gc, gr, dy as int, dx as int);
                    self.lemma_partial_sum(2, gx, gy, gc, gr, dy as int, dx as int);
                    let row = dy as int;
                    assert(gc * (row + 1) <= gc * gr && gc * (row + 1) == gc * row + gc)
                        by (nonlinear_arith)
                        requires
                            0 <= gc,
                            row + 1 <= gr,
                    ;
                }
                let i: usize = (sy * self.w + sx) * 4;
                sr = sr + self.buf[i] as u32;
                sg = sg + self.buf[i + 1] as u32;
                sb = sb + self.buf[i + 2] as u32;
                cnt = cnt + 1;
                dx = dx + 1;
            }
            assert(gc * (dy + 1) == gc * dy + gc) by (nonlinear_arith);
            dy = dy + 1;
        }
        proof {
            self.lemma_mean_is_byte(0, gx, gy, gc, gr);
            self.lemma_mean_is_byte(1, gx, gy, gc, gr);
            self.lemma_mean_is_byte(2, gx, gy, gc, gr);
        }
        ((sr / cnt) as u8, (sg / cnt) as u8, (sb / cnt) as u8)
    }
}

/// A target axis never takes more pixels than the longer of canvas and target.
proof fn lemma_block_fits(size: int, target: int, t: int)
    requires
        0 < size,
        0 < target,
        0 <= t < target,
    ensures
        0 < block_size(size, target),
        0 <= t * block_size(size, target),
        t * block_size(size, target) + block_size(size, target) <= size || t * block_size(
            size,
            target,
        ) + block_size(size, target) <= target,
{
    let b = block_size(size, target);
    vstd::arithmetic::div_mod::lemma_fundamental_div_mod(size, target);
    vstd::arithmetic::div_mod::lemma_mod_bound(size, target);
    assert(0 <= t * b && t * b + b <= target * b) by (nonlinear_arith)
        requires
            0 <= t < target,
            0 < b,
    ;
    if b == 1 {
        assert(target * b == target);
    }
}

impl SoftCanvas {
    /// The palette index of target pixel (`tx`, `ty`) when the canvas is shrunk to `tw` by
    /// `th`: that of the entry closest to the average of the pixel's box. Positions beyond 255
    /// wrap around.
    pub open spec fn indexed_pixel(
        &self,
        tw: int,
        th: int,
        pal: Seq<Rgb>,
        tx: int,
        ty: int,
    ) -> u8 {
        let bx = block_size(self.w as int, tw);
        let by = block_size(self.h as int, th);
        (nearest(pal, self.box_colour(tx * bx, ty * by, bx, by)) % 256) as u8
    }

    /// The shrunk canvas, row by row.
    pub open spec fn indexed(&self, tw: int, th: int, pal: Seq<Rgb>) -> Seq<u8> {
        Seq::new((tw * th) as nat, |i: int| self.indexed_pixel(tw, th, pal, i % tw, i / tw))
    }

    /// Every box that is averaged when the canvas is shrunk can be summed up in `u32`.
    pub open spec fn boxes_fit(&self, tw: int, th: int) -> bool {
        let bx = block_size(self.w as int, tw);
        let by = block_size(self.h as int, th);
        forall|tx: int, ty: int|
            0 <= tx < tw && 0 <= ty < th ==> #[trigger] self.box_fits(tx * bx, ty * by, bx, by)
    }

    /// Shrinks the canvas to `tw` by `th` pixels by averaging boxes of pixels, and replaces
    /// each average by the index of the palette entry closest to it.
    pub fn to_indexed(&self, tw: usize, th: usize, pal: &[Rgb]) -> (out: Vec<u8>)
        requires
            self.wf(),
            self.w > 0,
            self.h > 0,
            tw > 0,
            th > 0,
            tw * th <= isize::MAX,
            self.boxes_fit(tw as int, th as int),
        ensures
            out@ == self.indexed(tw as int, th as int, pal@),
    {
        let bx: usize = if self.w / tw < 1 {
            1
        } else {
            self.w / tw
        };
        let by: usize = if self.h / th < 1 {
            1
        } else {
            self.h / th
        };
        let mut out: Vec<u8> = Vec::with_capacity(tw * th);
        let ghost (gw, gh) = (tw as int, th as int);
        let mut ty: usize = 0;
        assert(0 * gw == 0);
        while ty < th
            invariant
                self.wf(),
                self.w > 0,
                self.h > 0,
                tw > 0,
                gw == tw,
                gh == th,
                bx == block_size(self.w as int, gw),
                by == block_size(self.h as int, gh),
                self.boxes_fit(gw, gh),
                ty <= th,
                out@.len() == ty * gw,
                forall|i: int|
                    0 <= i < out@.len() ==> #[trigger] out@[i] == self.indexed_pixel(
                        gw,
                        gh,
                        pal@,
                        i % gw,
                        i / gw,
                    ),
            decreases th - ty,
        {
            let mut tx: usize = 0;
            while tx < tw
                invariant
                    self.wf(),
                    self.w > 0,
                    self.h > 0,
                    tw > 0,
                    gw == tw,
                    gh == th,
                    bx == block_size(self.w as int, gw),
                    by == block_size(self.h as int, gh),
                    self.boxes_fit(gw, gh),
                    ty < th,
                    tx <= tw,
                    out@.len() == ty * gw + tx,
                    forall|i: int|
                        0 <= i < out@.len() ==> #[trigger] out@[i] == self.indexed_pixel(
                            gw,
                            gh,
                            pal@,
                            i % gw,
                            i / gw,
                        ),
                decreases tw - tx,
            {
                proof {
                    lemma_block_fits(self.w as int, gw, tx as int);
                    lemma_block_fits(self.h as int, gh, ty as int);
                    assert(self.box_fits(tx * bx, ty * by, bx as int, by as int));
                    vstd::arithmetic::div_mod::lemma_fundamental_div_mod_converse(
                        ty * gw + tx,
                        gw,
                        ty as int,
                        tx as int,
                    );
                }
                let c: Rgb = self.box_average(tx * bx, ty * by, bx, by);
                let idx: usize = nearest_index(pal, c);
                out.push((idx % 256) as u8);
                tx = tx + 1;
            }
            assert((ty + 1) * gw == ty * gw + gw) by (nonlinear_arith);
            ty = ty + 1;
        }
        assert(gh * gw == gw * gh) by (nonlinear_arith);
        assert(out@ =~= self.indexed(gw, gh, pal@));
        out
    }
}

impl SoftCanvas {
    /// The pixels that go into a box all have the colour `c`, whatever their alpha.
    pub open spec fn box_is_uniform(&self, c: Rgb, x: int, y: int, cols: int, rows: int) -> bool {
        forall|i: int, j: int|
            0 <= i < cols && 0 <= j < rows ==> {
                let p = #[trigger] self.at(
                    kept_below(x + i, self.w as int),
                    kept_below(y + j, self.h as int),
                );
                (p.0, p.1, p.2) == c
            }
    }
}

proof fn lemma_uniform_row(
    canvas: &SoftCanvas,
    c: Rgb,
    k: int,
    x: int,
    y: int,
    cols: int,
    j: int,
    rows: int,
    count: int,
)
    requires
        canvas.box_is_uniform(c, x, y, cols, rows),
        0 <= k < 3,
        0 <= j < rows,
        0 <= count <= cols,
    ensures
        canvas.row_sum(k, x, y + j, count) == crate::palette::rgb_byte(c, k) * count,
    decreases count,
{
    let v = crate::palette::rgb_byte(c, k) as int;
    if count > 0 {
        lemma_uniform_row(canvas, c, k, x, y, cols, j, rows, count - 1);
        let p = canvas.at(
            kept_below(x + (count - 1), canvas.w as int),
            kept_below(y + j, canvas.h as int),
        );
        assert((p.0, p.1, p.2) == c);
        assert(v * count == v * (count - 1) + v) by (nonlinear_arith);
    } else {
        assert(v * count == 0) by (nonlinear_arith)
            requires
                count == 0,
        ;
    }
}

proof fn lemma_uniform_box(
    canvas: &SoftCanvas,
    c: Rgb,
    k: int,
    x: int,
    y: int,
    cols: int,
    rows: int,
    part: int,
)
    requires
        canvas.box_is_uniform(c, x, y, cols, rows),
        0 <= k < 3,
        0 <= cols,
        0 <= part <= rows,
    ensures
        canvas.box_sum(k, x, y, cols, part) == crate::palette::rgb_byte(c, k) * (cols * part),
    decreases part,
{
    let v = crate::palette::rgb_byte(c, k) as int;
    if part > 0 {
        lemma_uniform_box(canvas, c, k, x, y, cols, rows, part - 1);
        lemma_uniform_row(canvas, c, k, x, y, cols, part - 1, rows, cols);
        assert(v * (cols * part) == v * (cols * (part - 1)) + v * cols) by (nonlinear_arith);
    } else {
        assert(v * (cols * part) == 0) by (nonlinear_arith)
            requires
                part == 0,
        ;
    }
}

/// The average of pixels of one colour is that colour.
pub proof fn law_uniform_box_keeps_its_colour(
    canvas: &SoftCanvas,
    c: Rgb,
    x: int,
    y: int,
    cols: int,
    rows: int,
)
    requires
        0 < cols,
        0 < rows,
        canvas.box_is_uniform(c, x, y, cols, rows),
    ensures
        canvas.box_colour(x, y, cols, rows) == c,
{
    assert forall|k: int| 0 <= k < 3 implies #[trigger] canvas.box_mean(k, x, y, cols, rows)
        == crate::palette::rgb_byte(c, k) by {
        lemma_uniform_box(canvas, c, k, x, y, cols, rows, rows);
        let v = crate::palette::rgb_byte(c, k) as int;
        let n = cols * rows;
        assert(n > 0) by (nonlinear_arith)
            requires
                0 < cols,
                0 < rows,
                n == cols * rows,
        ;
        vstd::arithmetic::div_mod::lemma_div_multiples_vanish(v, n);
        assert(n * v == v * n) by (nonlinear_arith);
    }
    assert(canvas.box_mean(0, x, y, cols, rows) == crate::palette::rgb_byte(c, 0));
    assert(canvas.box_mean(1, x, y, cols, rows) == crate::palette::rgb_byte(c, 1));
    assert(canvas.box_mean(2, x, y, cols, rows) == crate::palette::rgb_byte(c, 2));
}

proof fn lemma_distance_zero(a: Rgb, b: Rgb)
    ensures
        0 <= distance(a, b),
        distance(a, b) == 0 <==> a == b,
{
    let dr = a.0 - b.0;
    let dg = a.1 - b.1;
    let db = a.2 - b.2;
    assert(0 <= dr * dr && 0 <= dg * dg && 0 <= db * db && (dr * dr == 0 <==> dr == 0) && (dg * dg
        == 0 <==> dg == 0) && (db * db == 0 <==> db == 0)) by (nonlinear_arith);
}

/// A colour of the palette is mapped to the first entry that holds it.
pub proof fn law_palette_colour_is_found(pal: Seq<Rgb>, i: int)
    requires
        0 <= i < pal.len(),
        forall|j: int| 0 <= j < i ==> #[trigger] pal[j] != pal[i],
    ensures
        nearest(pal, pal[i]) == i,
{
    let c = pal[i];
    lemma_distance_zero(c, c);
    assert forall|j: int| 0 <= j < pal.len() implies distance(c, pal[i]) <= distance(
        c,
        #[trigger] pal[j],
    ) by {
        lemma_distance_zero(c, pal[j]);
    }
    assert forall|j: int| 0 <= j < i implies distance(c, pal[i]) < distance(
        c,
        #[trigger] pal[j],
    ) by {
        lemma_distance_zero(c, pal[j]);
    }
    law_nearest_is_unique(pal, c, i);
}

/// A part of the canvas on which nothing is drawn becomes index zero where that is the
/// palette's black: the background of every frame.
pub proof fn law_background_is_index_zero(
    canvas: &SoftCanvas,
    tw: int,
    th: int,
    pal: Seq<Rgb>,
    tx: int,
    ty: int,
)
    requires
        pal.len() > 0,
        pal[0] == crate::palette::black(),
        ({
            let bx = block_size(canvas.w as int, tw);
            let by = block_size(canvas.h as int, th);
            canvas.box_is_uniform(crate::palette::black(), tx * bx, ty * by, bx, by)
        }),
    ensures
        canvas.indexed_pixel(tw, th, pal, tx, ty) == 0,
{
    let bx = block_size(canvas.w as int, tw);
    let by = block_size(canvas.h as int, th);
    law_uniform_box_keeps_its_colour(canvas, pal[0], tx * bx, ty * by, bx, by);
    law_palette_colour_is_found(pal, 0);
}

proof fn lemma_nearest_exists(pal: Seq<Rgb>, c: Rgb)
    requires
        pal.len() > 0,
    ensures
        exists|i: int| is_nearest(pal, c, i),
    decreases pal.len(),
{
    if pal.len() == 1 {
        assert(is_nearest(pal, c, 0));
    } else {
        let s = pal.drop_last();
        let n = s.len() as int;
        lemma_nearest_exists(s, c);
        let i = choose|i: int| is_nearest(s, c, i);
        assert(forall|j: int| 0 <= j < n ==> s[j] == pal[j]);
        if distance(c, pal[n]) < distance(c, pal[i]) {
            assert forall|j: int| 0 <= j < n implies distance(c, pal[n]) < distance(
                c,
                #[trigger] pal[j],
            ) by {
                assert(distance(c, s[i]) <= distance(c, s[j]));
            }
            assert(is_nearest(pal, c, n));
        } else {
            assert forall|j: int| 0 <= j < pal.len() implies distance(c, pal[i]) <= distance(
                c,
                #[trigger] pal[j],
            ) by {
                if j < n {
                    assert(distance(c, s[i]) <= distance(c, s[j]));
                }
            }
            assert forall|j: int| 0 <= j < i implies distance(c, pal[i]) < distance(
                c,
                #[trigger] pal[j],
            ) by {
                assert(distance(c, s[i]) < distance(c, s[j]));
            }
            assert(is_nearest(pal, c, i));
        }
    }
}

/// Every index that comes out names an entry of the palette, and no other entry is closer.
pub proof fn law_indices_name_the_closest_entry(
    canvas: &SoftCanvas,
    tw: int,
    th: int,
    pal: Seq<Rgb>,
    tx: int,
    ty: int,
)
    requires
        0 < pal.len() <= 256,
    ensures
        ({
            let bx = block_size(canvas.w as int, tw);
            let by = block_size(canvas.h as int, th);
            is_nearest(
                pal,
                canvas.box_colour(tx * bx, ty * by, bx, by),
                canvas.indexed_pixel(tw, th, pal, tx, ty) as int,
            )
        }),
{
    let bx = block_size(canvas.w as int, tw);
    let by = block_size(canvas.h as int, th);
    lemma_nearest_exists(pal, canvas.box_colour(tx * bx, ty * by, bx, by));
}

proof fn lemma_same_row(a: &SoftCanvas, b: &SoftCanvas, c: int, x: int, y: int, count: int)
    requires
        a.w == b.w,
        a.h == b.h,
        a.buf@ == b.buf@,
    ensures
        a.row_sum(c, x, y, count) == b.row_sum(c, x, y, count),
    decreases count,
{
    if count > 0 {
        lemma_same_row(a, b, c, x, y, count - 1);
    }
}

proof fn lemma_same_box(
    a: &SoftCanvas,
    b: &SoftCanvas,
    c: int,
    x: int,
    y: int,
    cols: int,
    rows: int,
)
    requires
        a.w == b.w,
        a.h == b.h,
        a.buf@ == b.buf@,
    ensures
        a.box_sum(c, x, y, cols, rows) == b.box_sum(c, x, y, cols, rows),
    decreases rows,
{
    if rows > 0 {
        lemma_same_box(a, b, c, x, y, cols, rows - 1);
        lemma_same_row(a, b, c, x, y + rows - 1, cols);
    }
}

/// Two canvases with the same pixels have the same bytes.
proof fn lemma_same_pixels(a: &SoftCanvas, b: &SoftCanvas)
    requires
        a.wf(),
        b.wf(),
        a.w == b.w,
        a.h == b.h,
        forall|x: int, y: int| #[trigger] a.in_frame(x, y) ==> a.at(x, y) == b.at(x, y),
    ensures
        a.buf@ == b.buf@,
{
    let w = a.w as int;
    let h = a.h as int;
    assert forall|i: int| 0 <= i < a.buf@.len() implies a.buf@[i] == b.buf@[i] by {
        let p = i / 4;
        assert(w > 0) by (nonlinear_arith)
            requires
                0 <= i < w * h * 4,
                0 <= w,
                0 <= h,
        ;
        assert(0 <= p < w * h);
        let x = p % w;
        let y = p / w;
        vstd::arithmetic::div_mod::lemma_fundamental_div_mod(p, w);
        vstd::arithmetic::div_mod::lemma_mod_bound(p, w);
        assert(p == y * w + x) by (nonlinear_arith)
            requires
                p == w * y + x,
        ;
        assert(0 <= y < h) by (nonlinear_arith)
            requires
                p == y * w + x,
                0 <= x < w,
                0 <= p < w * h,
        ;
        assert(a.in_frame(x, y));
        assert(a.at(x, y) == b.at(x, y));
        assert(pixel_offset(w, x, y) == 4 * p);
    }
    assert(a.buf@ =~= b.buf@);
}

/// What a canvas is shrunk to depends on its pixels alone.
pub proof fn law_same_pixels_give_the_same_indices(
    a: &SoftCanvas,
    b: &SoftCanvas,
    tw: int,
    th: int,
    pal: Seq<Rgb>,
)
    requires
        a.wf(),
        b.wf(),
        a.w == b.w,
        a.h == b.h,
        forall|x: int, y: int| #[trigger] a.in_frame(x, y) ==> a.at(x, y) == b.at(x, y),
    ensures
        a.indexed(tw, th, pal) == b.indexed(tw, th, pal),
{
    lemma_same_pixels(a, b);
    let bx = block_size(a.w as int, tw);
    let by = block_size(a.h as int, th);
    assert forall|tx: int, ty: int| #[trigger]
        a.indexed_pixel(tw, th, pal, tx, ty) == b.indexed_pixel(tw, th, pal, tx, ty) by {
        lemma_same_box(a, b, 0, tx * bx, ty * by, bx, by);
        lemma_same_box(a, b, 1, tx * bx, ty * by, bx, by);
        lemma_same_box(a, b, 2, tx * bx, ty * by, bx, by);
    }
    assert(a.indexed(tw, th, pal) =~= b.indexed(tw, th, pal));
}

/// The chosen entry minimises the Euclidean distance of the colours: the sum of the squared
/// differences of red, green and blue is no larger for it than for any other entry, and smaller
/// than for every entry before it.
pub proof fn law_nearest_entry_minimises_the_distance(pal: Seq<Rgb>, c: Rgb, i: int, j: int)
    requires
        nearest(pal, c) == i,
        0 <= j < pal.len(),
    ensures
        0 <= i < pal.len(),
        ({
            let (p, q) = (pal[i], pal[j]);
            let of_p = (c.0 - p.0) * (c.0 - p.0) + (c.1 - p.1) * (c.1 - p.1) + (c.2 - p.2) * (c.2
                - p.2);
            let of_q = (c.0 - q.0) * (c.0 - q.0) + (c.1 - q.1) * (c.1 - q.1) + (c.2 - q.2) * (c.2
                - q.2);
            of_p <= of_q && (j < i ==> of_p < of_q)
        }),
{
    lemma_nearest_exists(pal, c);
    assert(is_nearest(pal, c, i));
    assert(distance(c, pal[i]) <= distance(c, pal[j]));
}

/// In an empty palette the choice is zero.
pub proof fn law_nearest_in_no_palette(c: Rgb)
    ensures
        nearest(Seq::<Rgb>::empty(), c) == 0,
{
}

/// How far an entry is away does not depend on which channel the difference is in: swapping
/// channels of the colour and of all entries alike does not change the choice.
pub proof fn law_channels_count_alike(pal: Seq<Rgb>, rolled: Seq<Rgb>, swapped: Seq<Rgb>, c: Rgb)
    requires
        rolled.len() == pal.len(),
        swapped.len() == pal.len(),
        forall|i: int|
            0 <= i < pal.len() ==> #[trigger] rolled[i] == (pal[i].1, pal[i].2, pal[i].0),
        forall|i: int|
            0 <= i < pal.len() ==> #[trigger] swapped[i] == (pal[i].1, pal[i].0, pal[i].2),
    ensures
        nearest(rolled, (c.1, c.2, c.0)) == nearest(pal, c),
        nearest(swapped, (c.1, c.0, c.2)) == nearest(pal, c),
{
    if pal.len() > 0 {
        let i = nearest(pal, c);
        let (r, s) = ((c.1, c.2, c.0), (c.1, c.0, c.2));
        lemma_nearest_exists(pal, c);
        assert(is_nearest(pal, c, i));
        assert forall|j: int| 0 <= j < pal.len() implies distance(r, #[trigger] rolled[j])
            == distance(c, pal[j]) && distance(s, swapped[j]) == distance(c, pal[j]) by {
            let (p, q) = (rolled[j], swapped[j]);
        }
        assert(is_nearest(rolled, r, i)) by {
            assert(distance(r, rolled[i]) == distance(c, pal[i]));
            assert forall|j: int| 0 <= j < pal.len() implies distance(r, rolled[i]) <= distance(
                r,
                #[trigger] rolled[j],
            ) && (j < i ==> distance(r, rolled[i]) < distance(r, rolled[j])) by {
                let p = pal[j];
            }
        }
        assert(is_nearest(swapped, s, i)) by {
            assert(distance(c, pal[i]) == distance(s, swapped[i])) by {
                let p = rolled[i];
            }
            assert forall|j: int| 0 <= j < pal.len() implies distance(s, swapped[i]) <= distance(
                s,
                #[trigger] swapped[j],
            ) && (j < i ==> distance(s, swapped[i]) < distance(s, swapped[j])) by {
                let (p, q) = (pal[j], rolled[j]);
            }
        }
        law_nearest_is_unique(rolled, r, i);
        law_nearest_is_unique(swapped, s, i);
    }
}

/// The sum over a box of one pixel is the byte of that pixel. Pixels beyond the canvas repeat
/// the last column and the last row.
pub proof fn law_box_of_one_pixel(canvas: &SoftCanvas, c: int, x: int, y: int)
    requires
        canvas.w > 0,
        canvas.h > 0,
    ensures
        ({
            let sx = min(x, canvas.w - 1);
            let sy = min(y, canvas.h - 1);
            canvas.box_sum(c, x, y, 1, 1) == canvas.buf@[(sy * canvas.w + sx) * 4 + c]
        }),
{
    reveal_with_fuel(SoftCanvas::box_sum, 2);
    reveal_with_fuel(SoftCanvas::row_sum, 2);
}

proof fn lemma_rows_add_up(canvas: &SoftCanvas, c: int, x: int, y: int, cols: int, more: int)
    requires
        0 <= cols,
        0 <= more,
    ensures
        canvas.row_sum(c, x, y, cols + more) == canvas.row_sum(c, x, y, cols) + canvas.row_sum(
            c,
            x + cols,
            y,
            more,
        ),
    decreases more,
{
    if more > 0 {
        lemma_rows_add_up(canvas, c, x, y, cols, more - 1);
        assert(x + (cols + more) - 1 == (x + cols) + more - 1);
    }
}

/// Boxes side by side add up to one wider box.
pub proof fn law_boxes_side_by_side_add_up(
    canvas: &SoftCanvas,
    c: int,
    x: int,
    y: int,
    cols: int,
    more: int,
    rows: int,
)
    requires
        0 <= cols,
        0 <= more,
    ensures
        canvas.box_sum(c, x, y, cols + more, rows) == canvas.box_sum(c, x, y, cols, rows)
            + canvas.box_sum(c, x + cols, y, more, rows),
    decreases rows,
{
    if rows > 0 {
        law_boxes_side_by_side_add_up(canvas, c, x, y, cols, more, rows - 1);
        lemma_rows_add_up(canvas, c, x, y + rows - 1, cols, more);
    }
}

/// Boxes below each other add up to one higher box.
pub proof fn law_boxes_below_each_other_add_up(
    canvas: &SoftCanvas,
    c: int,
    x: int,
    y: int,
    cols: int,
    rows: int,
    more: int,
)
    requires
        0 <= rows,
        0 <= more,
    ensures
        canvas.box_sum(c, x, y, cols, rows + more) == canvas.box_sum(c, x, y, cols, rows)
            + canvas.box_sum(c, x, y + rows, cols, more),
    decreases more,
{
    if more > 0 {
        law_boxes_below_each_other_add_up(canvas, c, x, y, cols, rows, more - 1);
        assert(y + (rows + more) - 1 == (y + rows) + more - 1);
    }
}

/// Each channel of the average colour of a box is the mean of that channel over its pixels,
/// rounded down: as often as there are pixels it goes into their sum, and one more does not.
pub proof fn law_box_colour_is_the_mean(canvas: &SoftCanvas, x: int, y: int, cols: int, rows: int)
    requires
        0 < cols,
        0 < rows,
    ensures
        ({
            let n = cols * rows;
            let p = canvas.box_colour(x, y, cols, rows);
            &&& n * p.0 <= canvas.box_sum(0, x, y, cols, rows) < n * p.0 + n
            &&& n * p.1 <= canvas.box_sum(1, x, y, cols, rows) < n * p.1 + n
            &&& n * p.2 <= canvas.box_sum(2, x, y, cols, rows) < n * p.2 + n
        }),
{
    let n = cols * rows;
    assert forall|c: int| #![trigger canvas.box_mean(c, x, y, cols, rows)] 0 <= n
        * canvas.box_mean(c, x, y, cols, rows) <= canvas.box_sum(c, x, y, cols, rows) < n
        * canvas.box_mean(c, x, y, cols, rows) + n && canvas.box_mean(c, x, y, cols, rows)
        <= 255 && canvas.box_mean(c, x, y, cols, rows) >= 0 by {
        canvas.lemma_mean_is_byte(c, x, y, cols, rows);
        let s = canvas.box_sum(c, x, y, cols, rows);
        vstd::arithmetic::div_mod::lemma_fundamental_div_mod(s, n);
        vstd::arithmetic::div_mod::lemma_mod_bound(s, n);
        let q = canvas.box_mean(c, x, y, cols, rows);
        assert(0 <= n * q) by (nonlinear_arith)
            requires
                0 < n,
                0 <= q,
        ;
    }
    assert(canvas.box_mean(0, x, y, cols, rows) <= 255);
    assert(canvas.box_mean(1, x, y, cols, rows) <= 255);
    assert(canvas.box_mean(2, x, y, cols, rows) <= 255);
}

/// Every box of not too many pixels can be summed up, whatever is drawn on it.
pub proof fn law_small_boxes_fit(canvas: &SoftCanvas, x: int, y: int, cols: int, rows: int)
    requires
        0 <= cols,
        0 <= rows,
        255 * (cols * rows) <= u32::MAX,
    ensures
        canvas.box_fits(x, y, cols, rows),
{
    canvas.lemma_box_sum_bounds(0, x, y, cols, rows, rows);
    canvas.lemma_box_sum_bounds(1, x, y, cols, rows, rows);
    canvas.lemma_box_sum_bounds(2, x, y, cols, rows, rows);
}

/// How many canvas pixels go into a target pixel: as many as fit into the canvas as often as
/// there are target pixels, and one at least.
proof fn lemma_block_is_the_quotient(size: int, target: int, block: int)
    requires
        0 < target,
        0 < block,
        size < target ==> block == 1,
        target <= size ==> block * target <= size < block * target + target,
    ensures
        block_size(size, target) == block,
{
    if target <= size {
        let r = size - block * target;
        vstd::arithmetic::div_mod::lemma_fundamental_div_mod_converse(size, target, block, r);
    } else {
        assert(size / target < 1) by (nonlinear_arith)
            requires
                0 < target,
                size < target,
        ;
    }
}

/// The shrunk canvas holds one index per target pixel, row by row. The canvas is cut into boxes
/// as large as fit, one pixel at least, and each target pixel holds the position of the palette
/// entry whose squared distance from the average of its box is the least, the first such entry
/// where there are several. Positions beyond 255 wrap around.
pub proof fn law_target_pixel_is_the_closest_to_its_box(
    canvas: &SoftCanvas,
    tw: int,
    th: int,
    pal: Seq<Rgb>,
    tx: int,
    ty: int,
    cols: int,
    rows: int,
    i: int,
)
    requires
        0 <= tx < tw,
        0 <= ty < th,
        0 < cols,
        0 < rows,
        canvas.w < tw ==> cols == 1,
        tw <= canvas.w ==> cols * tw <= canvas.w < cols * tw + tw,
        canvas.h < th ==> rows == 1,
        th <= canvas.h ==> rows * th <= canvas.h < rows * th + th,
        0 <= i < pal.len(),
        forall|j: int|
            0 <= j < pal.len() ==> {
                let c = canvas.box_colour(tx * cols, ty * rows, cols, rows);
                let (p, q) = (pal[i], #[trigger] pal[j]);
                let of_p = (c.0 - p.0) * (c.0 - p.0) + (c.1 - p.1) * (c.1 - p.1) + (c.2 - p.2) * (
                c.2 - p.2);
                let of_q = (c.0 - q.0) * (c.0 - q.0) + (c.1 - q.1) * (c.1 - q.1) + (c.2 - q.2) * (
                c.2 - q.2);
                of_p <= of_q && (j < i ==> of_p < of_q)
            },
    ensures
        canvas.indexed(tw, th, pal).len() == tw * th,
        0 <= ty * tw + tx < tw * th,
        canvas.indexed(tw, th, pal)[ty * tw + tx] == i % 256,
{
    let c = canvas.box_colour(tx * cols, ty * rows, cols, rows);
    lemma_block_is_the_quotient(canvas.w as int, tw, cols);
    lemma_block_is_the_quotient(canvas.h as int, th, rows);
    assert(is_nearest(pal, c, i)) by {
        assert forall|j: int| 0 <= j < pal.len() implies distance(c, pal[i]) <= distance(
            c,
            #[trigger] pal[j],
        ) && (j < i ==> distance(c, pal[i]) < distance(c, pal[j])) by {}
    }
    law_nearest_is_unique(pal, c, i);
    vstd::arithmetic::div_mod::lemma_fundamental_div_mod_converse(ty * tw + tx, tw, ty, tx);
    assert(0 <= ty * tw + tx < tw * th) by (nonlinear_arith)
        requires
            0 <= tx < tw,
            0 <= ty < th,
    ;
}

/// Without a palette every index is zero.
pub proof fn law_no_palette_gives_zeros(canvas: &SoftCanvas, tw: int, th: int, i: int)
    requires
        0 <= i < tw * th,
    ensures
        canvas.indexed(tw, th, Seq::<Rgb>::empty()).len() == tw * th,
        canvas.indexed(tw, th, Seq::<Rgb>::empty())[i] == 0,
{
}

/// A canvas can be shrunk, whatever is drawn on it, where the boxes do not hold too many pixels.
pub proof fn law_small_boxes_can_be_shrunk(
    canvas: &SoftCanvas,
    tw: int,
    th: int,
    cols: int,
    rows: int,
)
    requires
        0 < tw,
        0 < th,
        0 < cols,
        0 < rows,
        canvas.w < tw ==> cols == 1,
        tw <= canvas.w ==> cols * tw <= canvas.w < cols * tw + tw,
        canvas.h < th ==> rows == 1,
        th <= canvas.h ==> rows * th <= canvas.h < rows * th + th,
        255 * (cols * rows) <= u32::MAX,
    ensures
        canvas.boxes_fit(tw, th),
{
    lemma_block_is_the_quotient(canvas.w as int, tw, cols);
    lemma_block_is_the_quotient(canvas.h as int, th, rows);
    assert forall|tx: int, ty: int|
        0 <= tx < tw && 0 <= ty < th implies #[trigger] canvas.box_fits(
        tx * cols,
        ty * rows,
        cols,
        rows,
    ) by {
        law_small_boxes_fit(canvas, tx * cols, ty * rows, cols, rows);
    }
}

} // verus!
