//! The dragon curve: a strip of paper folded in half again and again, opened to right angles.
use vstd::arithmetic::power2::pow2;
use vstd::prelude::*;

verus! {

/// The `k`-th turn of the curve, counted from one: 1 is a left turn, -1 a right turn. What is
/// left of `k` when its factors of two are taken out decides.
pub open spec fn turn_at(k: nat) -> i8
    decreases k,
{
    if k > 0 && k % 2 == 0 {
        turn_at(k / 2)
    } else if k % 4 == 1 {
        1i8
    } else {
        -1i8
    }
}

/// The number of turns of a strip folded `order` times. A strip is folded at least once.
pub open spec fn turn_count(order: nat) -> nat {
    if order == 0 {
        1
    } else {
        (pow2(order) - 1) as nat
    }
}

/// All turns of a strip folded `order` times.
pub open spec fn dragon_turns(order: nat) -> Seq<i8> {
    Seq::new(turn_count(order), |i: int| turn_at((i + 1) as nat))
}

/// The turns of a strip walked from its other end: in the opposite order, left for right.
pub open spec fn walked_back(turns: Seq<i8>) -> Seq<i8> {
    Seq::new(turns.len(), |i: int| (-turns[turns.len() - 1 - i]) as i8)
}

/// Each turn is a left or a right turn.
proof fn lemma_turn_is_unit(k: nat)
    ensures
        turn_at(k) == 1 || turn_at(k) == -1,
    decreases k,
{
    if k > 0 && k % 2 == 0 {
        lemma_turn_is_unit(k / 2);
    }
}

/// The newest fold is a left turn.
proof fn lemma_turn_at_fold(n: nat)
    ensures
        turn_at(pow2(n)) == 1,
    decreases n,
{
    if n == 0 {
        vstd::arithmetic::power2::lemma2_to64();
    } else {
        vstd::arithmetic::power2::lemma_pow2_unfold(n);
        vstd::arithmetic::power2::lemma_pow2_pos((n - 1) as nat);
        lemma_turn_at_fold((n - 1) as nat);
        assert(pow2(n) / 2 == pow2((n - 1) as nat));
    }
}

/// Two turns at the same distance from a fold, one on either side of it, are opposite.
proof fn lemma_turns_mirror(n: nat, j: nat)
    requires
        0 < j < pow2(n),
    ensures
        turn_at(pow2(n) + j) == -turn_at((pow2(n) - j) as nat),
    decreases n,
{
    vstd::arithmetic::power2::lemma2_to64();
    assert(n > 0);
    vstd::arithmetic::power2::lemma_pow2_unfold(n);
    let h = pow2((n - 1) as nat);
    if j % 2 == 0 {
        lemma_turns_mirror((n - 1) as nat, j / 2);
        assert((pow2(n) + j) / 2 == h + j / 2);
        assert((pow2(n) - j) as nat / 2 == (h - j / 2) as nat);
    } else if n >= 2 {
        vstd::arithmetic::power2::lemma_pow2_unfold((n - 1) as nat);
        assert(pow2(n) % 4 == 0);
    }
}

/// Folding once more appends a left turn and then the curve so far, walked back.
pub proof fn law_one_more_fold(order: nat)
    requires
        order >= 1,
    ensures
        dragon_turns(order + 1) == dragon_turns(order).push(1i8) + walked_back(
            dragon_turns(order),
        ),
{
    let a = dragon_turns(order + 1);
    let s = dragon_turns(order);
    let b = s.push(1i8) + walked_back(s);
    vstd::arithmetic::power2::lemma_pow2_unfold(order + 1);
    vstd::arithmetic::power2::lemma_pow2_pos(order);
    lemma_turn_at_fold(order);
    assert forall|i: int| 0 <= i < a.len() implies a[i] == b[i] by {
        if i > s.len() {
            lemma_turns_mirror(order, (i + 1 - pow2(order)) as nat);
            lemma_turn_is_unit((2 * pow2(order) - i - 1) as nat);
        }
    }
    assert(a =~= b);
}

/// A curve folded fewer times is the beginning of one folded more often.
pub proof fn law_fewer_folds_are_a_beginning(low: nat, high: nat)
    requires
        low <= high,
    ensures
        turn_count(low) <= turn_count(high),
        dragon_turns(high).take(turn_count(low) as int) == dragon_turns(low),
{
    vstd::arithmetic::power2::lemma2_to64();
    vstd::arithmetic::power2::lemma_pow2_pos(low);
    vstd::arithmetic::power2::lemma_pow2_pos(high);
    if low < high {
        vstd::arithmetic::power2::lemma_pow2_strictly_increases(low, high);
    }
    assert(dragon_turns(high).take(turn_count(low) as int) =~= dragon_turns(low));
}

/// The turns of a strip folded `order` times.
pub fn build_turns(order: usize) -> (turns: Vec<i8>)
    requires
        pow2(order as nat) - 1 <= isize::MAX,
    ensures
        turns@ == dragon_turns(order as nat),
{
    let mut turns: Vec<i8> = Vec::new();
    turns.push(1);
    let mut m: usize = 1;
    proof {
        vstd::arithmetic::power2::lemma2_to64();
        assert(turns@ =~= dragon_turns(1));
    }
    while m < order
        invariant
            1 <= m,
            order >= 1 ==> m <= order,
            order == 0 ==> m == 1,
            pow2(order as nat) - 1 <= isize::MAX,
            turns@ == dragon_turns(m as nat),
        decreases order - m,
    {
        let n: usize = turns.len();
        let ghost s = turns@;
        proof {
            law_one_more_fold(m as nat);
        }
        turns.push(1);
        let mut i: usize = n;
        while i > 0
            invariant
                i <= n,
                n == s.len(),
                s == dragon_turns(m as nat),
                turns@ == s.push(1i8) + walked_back(s).take(n - i),
            decreases i,
        {
            i = i - 1;
            let v: i8 = turns[i];
            proof {
                lemma_turn_is_unit((i + 1) as nat);
                assert(v == s[i as int]);
                assert(walked_back(s).take(n - i) =~= walked_back(s).take(n - i - 1).push(
                    (-v) as i8,
                ));
            }
            turns.push(-v);
        }
        assert(walked_back(s).take(n as int) =~= walked_back(s));
        m = m + 1;
    }
    proof {
        vstd::arithmetic::power2::lemma2_to64();
        assert(dragon_turns(0) =~= dragon_turns(1));
    }
    turns
}

/// A point of the grid that the curve runs on.
#[derive(Clone, Copy)]
pub struct Point {
    pub x: i64,
    pub y: i64,
}

impl View for Point {
    type V = (int, int);

    open spec fn view(&self) -> (int, int) {
        (self.x as int, self.y as int)
    }
}

/// `d` turned left by a right angle.
pub open spec fn left_of(d: (int, int)) -> (int, int) {
    (-d.1, d.0)
}

/// `d` turned right by a right angle.
pub open spec fn right_of(d: (int, int)) -> (int, int) {
    (d.1, -d.0)
}

/// The direction of segment `k` of the curve. The first segment runs along the x axis, and
/// each further one turns left where the turn before it is 1, right otherwise.
pub open spec fn heading(turns: Seq<i8>, k: int) -> (int, int)
    decreases k,
{
    if k <= 0 {
        (1, 0)
    } else if turns[k - 1] == 1 {
        left_of(heading(turns, k - 1))
    } else {
        right_of(heading(turns, k - 1))
    }
}

/// The point that the curve reaches after `k` segments. It starts at the origin.
pub open spec fn position(turns: Seq<i8>, k: int) -> (int, int)
    decreases k,
{
    if k <= 0 {
        (0, 0)
    } else {
        let p = position(turns, k - 1);
        let d = heading(turns, k - 1);
        (p.0 + d.0, p.1 + d.1)
    }
}

/// Every segment is one unit long and runs along one of the axes.
pub proof fn law_segments_are_units(turns: Seq<i8>, k: int)
    ensures
        ({
            let d = heading(turns, k);
            d == (1int, 0int) || d == (0int, 1int) || d == (-1int, 0int) || d == (0int, -1int)
        }),
    decreases k,
{
    if k > 0 {
        law_segments_are_units(turns, k - 1);
    }
}

/// Any two segments that follow each other meet at a right angle.
pub proof fn law_turns_are_right_angles(turns: Seq<i8>, k: int)
    requires
        0 <= k,
    ensures
        ({
            let a = heading(turns, k);
            let b = heading(turns, k + 1);
            a.0 * b.0 + a.1 * b.1 == 0
        }),
{
    let a = heading(turns, k);
    assert(a.0 * (-a.1) + a.1 * a.0 == 0 && a.0 * a.1 + a.1 * (-a.0) == 0) by (nonlinear_arith);
}

/// After `k` segments the curve is at most `k` units away from its start, along either axis.
pub proof fn lemma_position_bounds(turns: Seq<i8>, k: int)
    requires
        0 <= k,
    ensures
        -k <= position(turns, k).0 <= k,
        -k <= position(turns, k).1 <= k,
    decreases k,
{
    if k > 0 {
        lemma_position_bounds(turns, k - 1);
        law_segments_are_units(turns, k - 1);
    }
}

/// Walking away from a fold, the headings on one side are those on the other side, turned.
proof fn lemma_headings_mirror(n: nat, j: int)
    requires
        0 <= j < pow2(n),
    ensures
        ({
            let t = dragon_turns(n + 1);
            heading(t, pow2(n) + j) == left_of(heading(t, pow2(n) - j - 1))
        }),
    decreases j,
{
    let t = dragon_turns(n + 1);
    vstd::arithmetic::power2::lemma_pow2_unfold(n + 1);
    if j == 0 {
        lemma_turn_at_fold(n);
    } else {
        lemma_headings_mirror(n, j - 1);
        lemma_turns_mirror(n, j as nat);
        lemma_turn_is_unit(pow2(n) + j as nat);
        assert(t[pow2(n) + j - 1] == turn_at(pow2(n) + j as nat));
        assert(t[pow2(n) - j - 1] == turn_at((pow2(n) - j) as nat));
        assert(heading(t, pow2(n) - j) == if t[pow2(n) - j - 1] == 1 {
            left_of(heading(t, pow2(n) - j - 1))
        } else {
            right_of(heading(t, pow2(n) - j - 1))
        });
    }
}

/// The second half of the curve is its first half, swung by a right angle about the newest
/// fold: the points at the same distance from the fold along the curve lie at the same
/// distance from it, a quarter turn apart.
pub proof fn law_halves_are_congruent(n: nat, j: int)
    requires
        0 <= j < pow2(n),
    ensures
        ({
            let t = dragon_turns(n + 1);
            let fold = position(t, pow2(n) as int);
            let a = position(t, pow2(n) - j);
            let b = position(t, pow2(n) + j);
            (b.0 - fold.0, b.1 - fold.1) == right_of((a.0 - fold.0, a.1 - fold.1))
        }),
    decreases j,
{
    if j > 0 {
        law_halves_are_congruent(n, j - 1);
        lemma_headings_mirror(n, j - 1);
        let t = dragon_turns(n + 1);
        assert(position(t, pow2(n) - (j - 1)) == (
            position(t, pow2(n) - j).0 + heading(t, pow2(n) - j).0,
            position(t, pow2(n) - j).1 + heading(t, pow2(n) - j).1,
        ));
    }
}

/// The points of the curve with the given turns: one more than there are turns.
pub fn turns_to_points(turns: &[i8]) -> (pts: Vec<Point>)
    requires
        16 * (turns@.len() + 1) <= isize::MAX,
    ensures
        pts@.len() == turns@.len() + 1,
        forall|k: int| 0 <= k <= turns@.len() ==> (#[trigger] pts@[k])@ == position(turns@, k),
        forall|k: int|
            0 <= k <= turns@.len() ==> (#[trigger] pts@[k]).x == position(turns@, k).0 && pts@[k].y
                == position(turns@, k).1,
{
    let mut pts: Vec<Point> = Vec::with_capacity(turns.len() + 1);
    let mut pos: Point = Point { x: 0, y: 0 };
    let mut dir: Point = Point { x: 1, y: 0 };
    pts.push(pos);
    let mut i: usize = 0;
    while i < turns.len()
        invariant
            16 * (turns@.len() + 1) <= isize::MAX,
            i <= turns@.len(),
            pos@ == position(turns@, i as int),
            dir@ == heading(turns@, i as int),
            pts@.len() == i + 1,
            forall|k: int| 0 <= k <= i ==> (#[trigger] pts@[k])@ == position(turns@, k),
        decreases turns@.len() - i,
    {
        proof {
            lemma_position_bounds(turns@, i as int);
            law_segments_are_units(turns@, i as int);
        }
        pos = Point { x: pos.x + dir.x, y: pos.y + dir.y };
        pts.push(pos);
        dir = if turns[i] == 1 {
            Point { x: -dir.y, y: dir.x }
        } else {
            Point { x: dir.y, y: -dir.x }
        };
        i = i + 1;
    }
    pts
}

/// The smallest upright box around some points.
#[derive(Clone, Copy)]
pub struct Bounds {
    pub min_x: i64,
    pub max_x: i64,
    pub min_y: i64,
    pub max_y: i64,
}

impl Bounds {
    /// The box holds all of `pts`, and each of its four sides touches one of them.
    pub open spec fn is_box_of(&self, pts: Seq<Point>) -> bool {
        &&& forall|i: int|
            0 <= i < pts.len() ==> self.min_x <= (#[trigger] pts[i]).x <= self.max_x && self.min_y
                <= pts[i].y <= self.max_y
        &&& exists|i: int| 0 <= i < pts.len() && (#[trigger] pts[i]).x == self.min_x
        &&& exists|i: int| 0 <= i < pts.len() && (#[trigger] pts[i]).x == self.max_x
        &&& exists|i: int| 0 <= i < pts.len() && (#[trigger] pts[i]).y == self.min_y
        &&& exists|i: int| 0 <= i < pts.len() && (#[trigger] pts[i]).y == self.max_y
    }

    /// The longer side of the box.
    pub open spec fn span(&self) -> int {
        if self.max_x - self.min_x >= self.max_y - self.min_y {
            self.max_x - self.min_x
        } else {
            self.max_y - self.min_y
        }
    }
}

/// The smallest box around `pts`; none around no points.
pub fn bounds(pts: &[Point]) -> (b: Option<Bounds>)
    ensures
        b is None <==> pts@.len() == 0,
        b matches Some(bx) ==> bx.is_box_of(pts@),
{
    if pts.len() == 0 {
        return None;
    }
    let first: Point = pts[0];
    let mut b: Bounds = Bounds {
        min_x: first.x,
        max_x: first.x,
        min_y: first.y,
        max_y: first.y,
    };
    let mut i: usize = 1;
    assert(pts@.take(1)[0] == first);
    while i < pts.len()
        invariant
            1 <= i <= pts@.len(),
            b.is_box_of(pts@.take(i as int)),
        decreases pts@.len() - i,
    {
        let p: Point = pts[i];
        let ghost was = b;
        let ghost s = pts@.take(i as int);
        let ghost t = pts@.take(i + 1);
        assert(t[i as int] == p);
        assert(forall|k: int| 0 <= k < i ==> s[k] == t[k]);
        if p.x < b.min_x {
            b.min_x = p.x;
        }
        if p.x > b.max_x {
            b.max_x = p.x;
        }
        if p.y < b.min_y {
            b.min_y = p.y;
        }
        if p.y > b.max_y {
            b.max_y = p.y;
        }
        proof {
            let lo_x = choose|k: int| 0 <= k < s.len() && (#[trigger] s[k]).x == was.min_x;
            let hi_x = choose|k: int| 0 <= k < s.len() && (#[trigger] s[k]).x == was.max_x;
            let lo_y = choose|k: int| 0 <= k < s.len() && (#[trigger] s[k]).y == was.min_y;
            let hi_y = choose|k: int| 0 <= k < s.len() && (#[trigger] s[k]).y == was.max_y;
            assert(t[lo_x].x == was.min_x);
            assert(t[hi_x].x == was.max_x);
            assert(t[lo_y].y == was.min_y);
            assert(t[hi_y].y == was.max_y);
        }
        i = i + 1;
    }
    assert(pts@.take(pts@.len() as int) =~= pts@);
    Some(b)
}

/// A curve centred on the origin.
pub struct Fitted {
    /// The points, measured from the centre of the box around the curve in half units.
    pub pts: Vec<Point>,
    /// The longer side of that box in whole units.
    pub span: i64,
}

impl Fitted {
    /// The curve is `pts`, centred in the box `b`.
    pub open spec fn centres(&self, pts: Seq<Point>, b: Bounds) -> bool {
        &&& self.span == b.span()
        &&& self.pts@.len() == pts.len()
        &&& forall|i: int|
            0 <= i < pts.len() ==> (#[trigger] self.pts@[i])@ == (
                2 * pts[i].x - (b.min_x + b.max_x),
                2 * pts[i].y - (b.min_y + b.max_y),
            )
    }
}

/// No two points are further apart along an axis than an `i64` can tell.
pub open spec fn extents_fit(pts: Seq<Point>) -> bool {
    forall|i: int, j: int|
        0 <= i < pts.len() && 0 <= j < pts.len() ==> (#[trigger] pts[i]).x - (#[trigger] pts[j]).x
            <= i64::MAX && pts[i].y - pts[j].y <= i64::MAX
}

/// Centres the curve on the origin. On a canvas whose drawable part measures `d`, a point is
/// drawn at `d / span` times half its centred coordinates.
pub fn fit_to_canvas(pts: &[Point]) -> (fitted: Fitted)
    requires
        extents_fit(pts@),
    ensures
        pts@.len() == 0 ==> fitted.pts@.len() == 0 && fitted.span == 0,
        pts@.len() > 0 ==> exists|b: Bounds| #[trigger]
            b.is_box_of(pts@) && fitted.centres(pts@, b),
{
    let mut out: Vec<Point> = Vec::new();
    let b: Bounds = match bounds(pts) {
        None => {
            return Fitted { pts: out, span: 0 };
        },
        Some(b) => b,
    };
    assert(b.max_x - b.min_x <= i64::MAX && b.max_y - b.min_y <= i64::MAX);
    let mut i: usize = 0;
    while i < pts.len()
        invariant
            i <= pts@.len(),
            b.is_box_of(pts@),
            b.max_x - b.min_x <= i64::MAX,
            b.max_y - b.min_y <= i64::MAX,
            out@.len() == i,
            forall|k: int|
                0 <= k < i ==> (#[trigger] out@[k])@ == (
                    2 * pts@[k].x - (b.min_x + b.max_x),
                    2 * pts@[k].y - (b.min_y + b.max_y),
                ),
        decreases pts@.len() - i,
    {
        let p: Point = pts[i];
        out.push(
            Point {
                x: (p.x - b.min_x) - (b.max_x - p.x),
                y: (p.y - b.min_y) - (b.max_y - p.y),
            },
        );
        i = i + 1;
    }
    let dx: i64 = b.max_x - b.min_x;
    let dy: i64 = b.max_y - b.min_y;
    Fitted {
        pts: out,
        span: if dx >= dy {
            dx
        } else {
            dy
        },
    }
}

/// A box around the same points is the same box.
pub proof fn law_box_is_unique(a: Bounds, b: Bounds, pts: Seq<Point>)
    requires
        a.is_box_of(pts),
        b.is_box_of(pts),
    ensures
        a == b,
{
}

/// A fitted curve keeps within the drawable part of the canvas: scaled to a drawable part of
/// size `d`, no point is further than `d / 2` from the centre along either axis.
pub proof fn law_fitted_curve_keeps_the_margin(
    fitted: Fitted,
    pts: Seq<Point>,
    b: Bounds,
    d: int,
    i: int,
)
    requires
        b.is_box_of(pts),
        fitted.centres(pts, b),
        0 <= d,
        0 <= i < pts.len(),
    ensures
        -(d * fitted.span) <= d * fitted.pts@[i].x <= d * fitted.span,
        -(d * fitted.span) <= d * fitted.pts@[i].y <= d * fitted.span,
{
    let s = fitted.span as int;
    let (x, y) = fitted.pts@[i]@;
    assert(pts[i].x <= b.max_x);
    assert(-(d * s) <= d * x <= d * s && -(d * s) <= d * y <= d * s) by (nonlinear_arith)
        requires
            0 <= d,
            -s <= x <= s,
            -s <= y <= s,
    ;
}

/// A fitted curve fills the drawable part of the canvas along its longer side: it reaches both
/// ends of it.
pub proof fn law_fitted_curve_reaches_the_margin(fitted: Fitted, pts: Seq<Point>, b: Bounds)
    requires
        b.is_box_of(pts),
        fitted.centres(pts, b),
    ensures
        ({
            ||| (exists|i: int|
                0 <= i < pts.len() && (#[trigger] fitted.pts@[i]).x == fitted.span) && (exists|
                i: int,
            |
                0 <= i < pts.len() && (#[trigger] fitted.pts@[i]).x == -fitted.span)
            ||| (exists|i: int|
                0 <= i < pts.len() && (#[trigger] fitted.pts@[i]).y == fitted.span) && (exists|
                i: int,
            |
                0 <= i < pts.len() && (#[trigger] fitted.pts@[i]).y == -fitted.span)
        }),
{
    let lo_x = choose|k: int| 0 <= k < pts.len() && (#[trigger] pts[k]).x == b.min_x;
    let hi_x = choose|k: int| 0 <= k < pts.len() && (#[trigger] pts[k]).x == b.max_x;
    let lo_y = choose|k: int| 0 <= k < pts.len() && (#[trigger] pts[k]).y == b.min_y;
    let hi_y = choose|k: int| 0 <= k < pts.len() && (#[trigger] pts[k]).y == b.max_y;
    assert(fitted.pts@[lo_x]@.0 == b.min_x - b.max_x);
    assert(fitted.pts@[hi_x]@.0 == b.max_x - b.min_x);
    assert(fitted.pts@[lo_y]@.1 == b.min_y - b.max_y);
    assert(fitted.pts@[hi_y]@.1 == b.max_y - b.min_y);
}

/// Segments run along the x axis and along the y axis in turn.
proof fn lemma_heading_axis(turns: Seq<i8>, k: int)
    requires
        0 <= k,
    ensures
        k % 2 == 0 ==> heading(turns, k).1 == 0,
        k % 2 == 1 ==> heading(turns, k).0 == 0,
    decreases k,
{
    if k > 0 {
        lemma_heading_axis(turns, k - 1);
    }
}

/// The points lie on the two colours of a chessboard in turn.
proof fn lemma_position_parity(turns: Seq<i8>, k: int)
    requires
        0 <= k,
    ensures
        (position(turns, k).0 + position(turns, k).1) % 2 == k % 2,
    decreases k,
{
    if k > 0 {
        lemma_position_parity(turns, k - 1);
        law_segments_are_units(turns, k - 1);
    }
}

/// How the two segments that a segment is folded into run.
proof fn lemma_folded_headings(order: nat, m: int)
    requires
        0 <= m,
        2 * m <= turn_count(order),
    ensures
        ({
            let t = dragon_turns(order);
            let h = heading(t, m);
            &&& heading(t, 2 * m) == if m % 2 == 0 {
                h
            } else {
                left_of(h)
            }
            &&& 2 * m + 1 <= turn_count(order) ==> heading(t, 2 * m + 1) == if m % 2 == 0 {
                left_of(h)
            } else {
                h
            }
        }),
    decreases m,
{
    let t = dragon_turns(order);
    if m > 0 {
        lemma_folded_headings(order, m - 1);
        assert(t[2 * m - 1] == turn_at((2 * m) as nat));
        assert((2 * m) as nat / 2 == m as nat);
        assert(t[m - 1] == turn_at(m as nat));
        lemma_turn_is_unit(m as nat);
        assert(heading(t, 2 * m) == if t[2 * m - 1] == 1 {
            left_of(heading(t, 2 * m - 1))
        } else {
            right_of(heading(t, 2 * m - 1))
        });
    }
    if 2 * m + 1 <= turn_count(order) {
        assert(t[2 * m] == turn_at((2 * m + 1) as nat));
        assert(heading(t, 2 * m + 1) == if t[2 * m] == 1 {
            left_of(heading(t, 2 * m))
        } else {
            right_of(heading(t, 2 * m))
        });
    }
}

/// Every other point of the curve lies on a smaller copy of it: the point after `2 * m`
/// segments is the point after `m` segments, turned left by half a right angle and as much
/// further from the start as the diagonal of a square is longer than its side.
pub proof fn law_every_other_point_is_a_copy(order: nat, m: int)
    requires
        0 <= m,
        2 * m <= turn_count(order),
    ensures
        ({
            let t = dragon_turns(order);
            let p = position(t, m);
            position(t, 2 * m) == (p.0 - p.1, p.0 + p.1)
        }),
    decreases m,
{
    if m > 0 {
        let t = dragon_turns(order);
        law_every_other_point_is_a_copy(order, m - 1);
        lemma_folded_headings(order, m - 1);
        let k = 2 * m;
        assert(position(t, k) == (
            position(t, k - 1).0 + heading(t, k - 1).0,
            position(t, k - 1).1 + heading(t, k - 1).1,
        ));
        assert(position(t, k - 1) == (
            position(t, k - 2).0 + heading(t, k - 2).0,
            position(t, k - 2).1 + heading(t, k - 2).1,
        ));
    }
}

/// Segments `a` and `b` join the same two points, in either direction.
pub open spec fn same_segment(turns: Seq<i8>, a: int, b: int) -> bool {
    let (p, q) = (position(turns, a), position(turns, a + 1));
    let (r, s) = (position(turns, b), position(turns, b + 1));
    (p == r && q == s) || (p == s && q == r)
}

/// The curve never walks along a segment twice, in neither direction.
pub proof fn law_no_segment_is_walked_twice(order: nat, a: int, b: int)
    requires
        0 <= a < b < turn_count(order),
    ensures
        !same_segment(dragon_turns(order), a, b),
    decreases b,
{
    let t = dragon_turns(order);
    if same_segment(t, a, b) {
        let (p, q) = (position(t, a), position(t, a + 1));
        let (r, s) = (position(t, b), position(t, b + 1));
        assert(q == (p.0 + heading(t, a).0, p.1 + heading(t, a).1));
        assert(s == (r.0 + heading(t, b).0, r.1 + heading(t, b).1));
        lemma_heading_axis(t, a);
        lemma_heading_axis(t, b);
        law_segments_are_units(t, a);
        law_segments_are_units(t, b);
        lemma_position_parity(t, a);
        lemma_position_parity(t, b);
        lemma_position_parity(t, a + 1);
        lemma_position_parity(t, b + 1);
        // Both run along the same axis, so both start on the same colour of the chessboard.
        assert(a % 2 == b % 2);
        assert(p == r && q == s);
        let m = a / 2;
        let l = b / 2;
        lemma_folded_headings(order, m);
        lemma_folded_headings(order, l);
        lemma_position_parity(t, m);
        lemma_position_parity(t, l);
        if a % 2 == 0 {
            assert(a == 2 * m && b == 2 * l);
            law_every_other_point_is_a_copy(order, m);
            law_every_other_point_is_a_copy(order, l);
            assert(position(t, m) == position(t, l));
        } else {
            assert(a == 2 * m + 1 && b == 2 * l + 1);
            law_every_other_point_is_a_copy(order, m + 1);
            law_every_other_point_is_a_copy(order, l + 1);
            lemma_position_parity(t, m + 1);
            lemma_position_parity(t, l + 1);
            assert(position(t, m + 1) == position(t, l + 1));
        }
        assert(m % 2 == l % 2);
        assert(heading(t, m) == heading(t, l));
        assert(position(t, m + 1) == (
            position(t, m).0 + heading(t, m).0,
            position(t, m).1 + heading(t, m).1,
        ));
        assert(position(t, l + 1) == (
            position(t, l).0 + heading(t, l).0,
            position(t, l).1 + heading(t, l).1,
        ));
        assert(same_segment(t, m, l));
        law_no_segment_is_walked_twice(order, m, l);
    }
}

/// `q` is `p` scaled by `s / d` and moved.
pub open spec fn is_similar(p: Seq<Point>, q: Seq<Point>, s: int, d: int, v: (int, int)) -> bool {
    &&& 0 < s
    &&& 0 < d
    &&& p.len() == q.len()
    &&& forall|i: int|
        0 <= i < p.len() ==> d * (#[trigger] q[i]).x == s * p[i].x + v.0 && d * q[i].y == s
            * p[i].y + v.1
}

proof fn lemma_similar_side(lo: int, hi: int, low: int, high: int, s: int, d: int, v: int)
    by (nonlinear_arith)
    requires
        d * low == s * lo + v,
        d * high == s * hi + v,
    ensures
        d * (high - low) == s * (hi - lo),
        d * (low + high) == s * (lo + hi) + 2 * v,
{
}

/// The box around scaled and moved points is the scaled and moved box.
proof fn lemma_similar_box(
    p: Seq<Point>,
    q: Seq<Point>,
    s: int,
    d: int,
    v: (int, int),
    a: Bounds,
    b: Bounds,
)
    requires
        is_similar(p, q, s, d, v),
        a.is_box_of(p),
        b.is_box_of(q),
    ensures
        d * b.min_x == s * a.min_x + v.0,
        d * b.max_x == s * a.max_x + v.0,
        d * b.min_y == s * a.min_y + v.1,
        d * b.max_y == s * a.max_y + v.1,
{
    let i = choose|i: int| 0 <= i < p.len() && (#[trigger] p[i]).x == a.min_x;
    let j = choose|j: int| 0 <= j < q.len() && (#[trigger] q[j]).x == b.min_x;
    lemma_least(p[i].x as int, q[i].x as int, p[j].x as int, q[j].x as int, s, d, v.0);
    let i = choose|i: int| 0 <= i < p.len() && (#[trigger] p[i]).x == a.max_x;
    let j = choose|j: int| 0 <= j < q.len() && (#[trigger] q[j]).x == b.max_x;
    lemma_least(p[j].x as int, q[j].x as int, p[i].x as int, q[i].x as int, s, d, v.0);
    let i = choose|i: int| 0 <= i < p.len() && (#[trigger] p[i]).y == a.min_y;
    let j = choose|j: int| 0 <= j < q.len() && (#[trigger] q[j]).y == b.min_y;
    lemma_least(p[i].y as int, q[i].y as int, p[j].y as int, q[j].y as int, s, d, v.1);
    let i = choose|i: int| 0 <= i < p.len() && (#[trigger] p[i]).y == a.max_y;
    let j = choose|j: int| 0 <= j < q.len() && (#[trigger] q[j]).y == b.max_y;
    lemma_least(p[j].y as int, q[j].y as int, p[i].y as int, q[i].y as int, s, d, v.1);
}

/// Two numbers that are ordered one way before scaling and the other way after it are equal.
proof fn lemma_least(p: int, p_scaled: int, r: int, r_scaled: int, s: int, d: int, v: int)
    by (nonlinear_arith)
    requires
        0 < s,
        0 < d,
        d * p_scaled == s * p + v,
        d * r_scaled == s * r + v,
        p <= r,
        r_scaled <= p_scaled,
    ensures
        p == r,
        p_scaled == r_scaled,
{
}

/// Fitting does not see where the points are nor how large the curve is: points that are moved,
/// and scaled by `s / d`, are centred to the same points scaled by `s / d`, and so is the span.
/// What is drawn, the ratio of the centred coordinates to the span, stays the same.
pub proof fn law_fitting_ignores_place_and_size(
    p: Seq<Point>,
    q: Seq<Point>,
    s: int,
    d: int,
    v: (int, int),
    a: Bounds,
    b: Bounds,
    of_p: Fitted,
    of_q: Fitted,
    i: int,
)
    requires
        is_similar(p, q, s, d, v),
        a.is_box_of(p),
        b.is_box_of(q),
        of_p.centres(p, a),
        of_q.centres(q, b),
        0 <= i < p.len(),
    ensures
        d * of_q.span == s * of_p.span,
        d * of_q.pts@[i].x == s * of_p.pts@[i].x,
        d * of_q.pts@[i].y == s * of_p.pts@[i].y,
        of_q.pts@[i].x * of_p.span == of_p.pts@[i].x * of_q.span,
        of_q.pts@[i].y * of_p.span == of_p.pts@[i].y * of_q.span,
{
    lemma_similar_box(p, q, s, d, v, a, b);
    let (ax, ay) = (a.max_x - a.min_x, a.max_y - a.min_y);
    let (bx, by) = (b.max_x - b.min_x, b.max_y - b.min_y);
    lemma_similar_side(
        a.min_x as int,
        a.max_x as int,
        b.min_x as int,
        b.max_x as int,
        s,
        d,
        v.0,
    );
    lemma_similar_side(
        a.min_y as int,
        a.max_y as int,
        b.min_y as int,
        b.max_y as int,
        s,
        d,
        v.1,
    );
    assert((ax >= ay) == (bx >= by)) by (nonlinear_arith)
        requires
            0 < s,
            0 < d,
            d * bx == s * ax,
            d * by == s * ay,
    ;
    assert(d * of_q.span == s * of_p.span);
    let (sp, sq) = (of_p.span as int, of_q.span as int);
    lemma_same_ratio(
        p[i].x as int,
        q[i].x as int,
        a.min_x + a.max_x,
        b.min_x + b.max_x,
        sp,
        sq,
        s,
        d,
        v.0,
    );
    lemma_same_ratio(
        p[i].y as int,
        q[i].y as int,
        a.min_y + a.max_y,
        b.min_y + b.max_y,
        sp,
        sq,
        s,
        d,
        v.1,
    );
    assert(of_q.pts@[i]@ == (
        2 * q[i].x - (b.min_x + b.max_x),
        2 * q[i].y - (b.min_y + b.max_y),
    ));
    assert(of_p.pts@[i]@ == (
        2 * p[i].x - (a.min_x + a.max_x),
        2 * p[i].y - (a.min_y + a.max_y),
    ));
}

proof fn lemma_same_ratio(
    x: int,
    scaled: int,
    sum: int,
    scaled_sum: int,
    span: int,
    scaled_span: int,
    s: int,
    d: int,
    v: int,
)
    requires
        0 < s,
        0 < d,
        d * scaled == s * x + v,
        d * scaled_sum == s * sum + 2 * v,
        d * scaled_span == s * span,
    ensures
        d * (2 * scaled - scaled_sum) == s * (2 * x - sum),
        (2 * scaled - scaled_sum) * span == (2 * x - sum) * scaled_span,
{
    let c = 2 * x - sum;
    let e = 2 * scaled - scaled_sum;
    assert(d * e == s * c) by (nonlinear_arith)
        requires
            d * scaled == s * x + v,
            d * scaled_sum == s * sum + 2 * v,
            c == 2 * x - sum,
            e == 2 * scaled - scaled_sum,
    ;
    assert(d * (e * span) == d * (c * scaled_span)) by (nonlinear_arith)
        requires
            d * e == s * c,
            d * scaled_span == s * span,
    ;
    assert(e * span == c * scaled_span) by (nonlinear_arith)
        requires
            d * (e * span) == d * (c * scaled_span),
            0 < d,
    ;
}

/// Fitting a fitted curve again changes nothing of what is drawn: all centred coordinates and
/// the span are doubled.
pub proof fn law_fitting_twice_changes_nothing(
    p: Seq<Point>,
    a: Bounds,
    b: Bounds,
    once: Fitted,
    twice: Fitted,
    i: int,
)
    requires
        a.is_box_of(p),
        once.centres(p, a),
        b.is_box_of(once.pts@),
        twice.centres(once.pts@, b),
        0 <= i < p.len(),
    ensures
        twice.span == 2 * once.span,
        twice.pts@[i].x == 2 * once.pts@[i].x,
        twice.pts@[i].y == 2 * once.pts@[i].y,
        twice.pts@[i].x * once.span == once.pts@[i].x * twice.span,
        twice.pts@[i].y * once.span == once.pts@[i].y * twice.span,
{
    let v = (-(a.min_x + a.max_x), -(a.min_y + a.max_y));
    assert forall|k: int| 0 <= k < p.len() implies 1 * (#[trigger] once.pts@[k]).x == 2 * p[k].x
        + v.0 && 1 * once.pts@[k].y == 2 * p[k].y + v.1 by {
        assert(once.pts@[k]@ == (
            2 * p[k].x - (a.min_x + a.max_x),
            2 * p[k].y - (a.min_y + a.max_y),
        ));
    }
    law_fitting_ignores_place_and_size(p, once.pts@, 2, 1, v, a, b, once, twice, i);
}

/// A strip that is folded once, or not at all, has one left turn.
pub proof fn law_first_fold()
    ensures
        dragon_turns(0) == seq![1i8],
        dragon_turns(1) == seq![1i8],
{
    vstd::arithmetic::power2::lemma2_to64();
    assert(dragon_turns(0) =~= seq![1i8]);
    assert(dragon_turns(1) =~= seq![1i8]);
}

/// Folding once more keeps all turns, puts a left turn behind them, and then the opposite of
/// each of them, from the last to the first.
pub proof fn law_fold_mirrors_every_turn(order: nat, i: int)
    requires
        order >= 1,
        0 <= i < dragon_turns(order).len(),
    ensures
        ({
            let (t, u) = (dragon_turns(order), dragon_turns(order + 1));
            let n = t.len();
            &&& u.len() == 2 * n + 1
            &&& u[i] == t[i]
            &&& u[n as int] == 1
            &&& u[2 * n - i] == -t[i]
        }),
{
    let t = dragon_turns(order);
    law_one_more_fold(order);
    lemma_turn_is_unit((i + 1) as nat);
    let n = t.len();
    assert((t.push(1i8) + walked_back(t))[2 * n - i] == walked_back(t)[n - 1 - i]);
}

/// How the curve is walked: from the origin one unit along the x axis, and then each step is
/// the step before it, turned by a right angle: to the left where the turn between them is 1, to
/// the right otherwise.
pub proof fn law_each_step_is_the_last_one_turned(turns: Seq<i8>, k: int)
    requires
        1 <= k,
    ensures
        position(turns, 0) == (0int, 0int),
        position(turns, 1) == (1int, 0int),
        ({
            let (p, q, r) = (
                position(turns, k - 1),
                position(turns, k),
                position(turns, k + 1),
            );
            let (dx, dy) = (q.0 - p.0, q.1 - p.1);
            (r.0 - q.0, r.1 - q.1) == if turns[k - 1] == 1 {
                (-dy, dx)
            } else {
                (dy, -dx)
            }
        }),
{
    reveal_with_fuel(position, 3);
    reveal_with_fuel(heading, 2);
}

/// The box around some points holds all of them, and whatever else holds all of them holds the
/// box.
pub proof fn law_box_is_the_smallest(
    b: Bounds,
    pts: Seq<Point>,
    i: int,
    left: int,
    right: int,
    low: int,
    high: int,
)
    requires
        b.is_box_of(pts),
        0 <= i < pts.len(),
        forall|k: int|
            0 <= k < pts.len() ==> left <= (#[trigger] pts[k]).x <= right && low <= pts[k].y
                <= high,
    ensures
        b.min_x <= pts[i].x <= b.max_x,
        b.min_y <= pts[i].y <= b.max_y,
        left <= b.min_x,
        b.max_x <= right,
        low <= b.min_y,
        b.max_y <= high,
{
}

/// Fitting moves the points as a whole: their number stays, and any two of them are as far apart
/// as before, counted in half units.
pub proof fn law_fitting_moves_the_points_as_a_whole(
    fitted: Fitted,
    pts: Seq<Point>,
    b: Bounds,
    i: int,
    j: int,
)
    requires
        fitted.centres(pts, b),
        0 <= i < pts.len(),
        0 <= j < pts.len(),
    ensures
        fitted.pts@.len() == pts.len(),
        fitted.pts@[i].x - fitted.pts@[j].x == 2 * (pts[i].x - pts[j].x),
        fitted.pts@[i].y - fitted.pts@[j].y == 2 * (pts[i].y - pts[j].y),
{
    assert(fitted.pts@[i]@.0 == 2 * pts[i].x - (b.min_x + b.max_x));
    assert(fitted.pts@[j]@.0 == 2 * pts[j].x - (b.min_x + b.max_x));
}

/// A fitted curve reaches equally far to either side of the origin: whatever point one takes,
/// there is one at least as far out on the other side, along either axis.
pub proof fn law_fitted_curve_is_centred(fitted: Fitted, pts: Seq<Point>, b: Bounds, i: int)
    requires
        b.is_box_of(pts),
        fitted.centres(pts, b),
        0 <= i < pts.len(),
    ensures
        exists|j: int|
            0 <= j < pts.len() && (#[trigger] fitted.pts@[j]).x <= -fitted.pts@[i].x,
        exists|j: int|
            0 <= j < pts.len() && (#[trigger] fitted.pts@[j]).x >= -fitted.pts@[i].x,
        exists|j: int|
            0 <= j < pts.len() && (#[trigger] fitted.pts@[j]).y <= -fitted.pts@[i].y,
        exists|j: int|
            0 <= j < pts.len() && (#[trigger] fitted.pts@[j]).y >= -fitted.pts@[i].y,
{
    let lo_x = choose|k: int| 0 <= k < pts.len() && (#[trigger] pts[k]).x == b.min_x;
    let hi_x = choose|k: int| 0 <= k < pts.len() && (#[trigger] pts[k]).x == b.max_x;
    let lo_y = choose|k: int| 0 <= k < pts.len() && (#[trigger] pts[k]).y == b.min_y;
    let hi_y = choose|k: int| 0 <= k < pts.len() && (#[trigger] pts[k]).y == b.max_y;
    assert(fitted.pts@[i]@.0 == 2 * pts[i].x - (b.min_x + b.max_x));
    assert(fitted.pts@[lo_x]@.0 == b.min_x - b.max_x);
    assert(fitted.pts@[hi_x]@.0 == b.max_x - b.min_x);
    assert(fitted.pts@[lo_y]@.1 == b.min_y - b.max_y);
    assert(fitted.pts@[hi_y]@.1 == b.max_y - b.min_y);
}

/// Every curve on half of the grid can be fitted.
pub proof fn law_half_of_the_grid_can_be_fitted(pts: Seq<Point>)
    requires
        forall|i: int|
            0 <= i < pts.len() ==> i64::MIN < 2 * (#[trigger] pts[i]).x <= i64::MAX && i64::MIN
                < 2 * pts[i].y <= i64::MAX,
    ensures
        extents_fit(pts),
{
}

} // verus!
