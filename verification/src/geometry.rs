//! Integer geometry on the grid: vectors, the four cardinal directions and
//! axis-aligned rectangles.

use vstd::prelude::*;
use vstd::std_specs::ops::{AddSpecImpl, MulSpecImpl};
use vstd::arithmetic::div_mod::{lemma_fundamental_div_mod, lemma_fundamental_div_mod_converse};
use vstd::arithmetic::mul::{lemma_mul_inequality, lemma_mul_is_commutative};

verus! {

/// A point or an offset on the integer grid.
#[derive(Debug, Clone, Copy, PartialEq, Eq, Structural)]
pub struct Vec2D(pub i32, pub i32);

/// Whether `n` is an `i32` value.
pub open spec fn fits_i32(n: int) -> bool {
    i32::MIN <= n <= i32::MAX
}

/// A vector times a number: both components are scaled. The products have
/// to be `i32` values.
impl core::ops::Mul<i32> for Vec2D {
    type Output = Vec2D;

    fn mul(self, t: i32) -> (scaled: Vec2D) {
        Vec2D(self.0 * t, self.1 * t)
    }
}

impl MulSpecImpl<i32> for Vec2D {
    open spec fn obeys_mul_spec() -> bool {
        true
    }

    open spec fn mul_req(self, t: i32) -> bool {
        fits_i32(self.0 * t) && fits_i32(self.1 * t)
    }

    open spec fn mul_spec(self, t: i32) -> Vec2D {
        Vec2D((self.0 * t) as i32, (self.1 * t) as i32)
    }
}

/// A number times a vector: both components are scaled. The products have
/// to be `i32` values.
impl core::ops::Mul<Vec2D> for i32 {
    type Output = Vec2D;

    fn mul(self, v: Vec2D) -> (scaled: Vec2D) {
        Vec2D(v.0 * self, v.1 * self)
    }
}

impl MulSpecImpl<Vec2D> for i32 {
    open spec fn obeys_mul_spec() -> bool {
        true
    }

    open spec fn mul_req(self, v: Vec2D) -> bool {
        fits_i32(v.0 * self) && fits_i32(v.1 * self)
    }

    open spec fn mul_spec(self, v: Vec2D) -> Vec2D {
        Vec2D((v.0 * self) as i32, (v.1 * self) as i32)
    }
}

/// The sum of two vectors, component by component. The sums have to be
/// `i32` values.
impl core::ops::Add<Vec2D> for Vec2D {
    type Output = Vec2D;

    fn add(self, rhs: Vec2D) -> (sum: Vec2D) {
        Vec2D(self.0 + rhs.0, self.1 + rhs.1)
    }
}

impl AddSpecImpl<Vec2D> for Vec2D {
    open spec fn obeys_add_spec() -> bool {
        true
    }

    open spec fn add_req(self, rhs: Vec2D) -> bool {
        fits_i32(self.0 + rhs.0) && fits_i32(self.1 + rhs.1)
    }

    open spec fn add_spec(self, rhs: Vec2D) -> Vec2D {
        Vec2D((self.0 + rhs.0) as i32, (self.1 + rhs.1) as i32)
    }
}

/// One of the four cardinal directions. North points towards smaller `y`.
#[derive(Debug, Clone, Copy, PartialEq, Eq, Structural)]
pub enum Direction {
    N,
    S,
    E,
    W,
}

impl Direction {
    /// The four directions in their fixed order of enumeration.
    pub open spec fn all() -> Seq<Direction> {
        seq![Direction::N, Direction::S, Direction::E, Direction::W]
    }

    /// The horizontal component of the unit step.
    pub open spec fn dx(self) -> int {
        match self {
            Direction::N => 0,
            Direction::S => 0,
            Direction::E => 1,
            Direction::W => -1,
        }
    }

    /// The vertical component of the unit step.
    pub open spec fn dy(self) -> int {
        match self {
            Direction::N => -1,
            Direction::S => 1,
            Direction::E => 0,
            Direction::W => 0,
        }
    }

    /// The directions, in the order in which every scan of this crate visits
    /// them.
    pub fn iterator() -> (all: [Direction; 4])
        ensures
            all@ == Direction::all(),
    {
        let all = [Direction::N, Direction::S, Direction::E, Direction::W];
        assert(all@ =~= Direction::all());
        all
    }

    /// The unit offset of one step in this direction.
    pub fn dir(&self) -> (v: Vec2D)
        ensures
            v.0 == self.dx(),
            v.1 == self.dy(),
    {
        match self {
            Direction::N => Vec2D(0, -1),
            Direction::S => Vec2D(0, 1),
            Direction::E => Vec2D(1, 0),
            Direction::W => Vec2D(-1, 0),
        }
    }
}

/// An axis-aligned rectangle `(x, y, width, height)` covering the half-open
/// ranges `[x, x + width)` and `[y, y + height)`.
#[derive(Debug, Clone, Copy, PartialEq, Eq, Structural)]
pub struct Rect(pub i32, pub i32, pub i32, pub i32);

/// The smaller of `best` and `gap`, where a negative `gap` does not count.
pub open spec fn nearer(best: Option<int>, gap: int) -> Option<int> {
    if gap < 0 {
        best
    } else {
        match best {
            Some(b) if b <= gap => best,
            _ => Some(gap),
        }
    }
}

impl Rect {
    /// A rectangle is well formed when it is not empty and its far corner
    /// is representable.
    pub open spec fn wf(self) -> bool {
        &&& self.2 > 0
        &&& self.3 > 0
        &&& self.0 + self.2 <= i32::MAX
        &&& self.1 + self.3 <= i32::MAX
    }

    /// Whether the cell `(i, j)` lies in the rectangle.
    pub open spec fn covers(self, i: int, j: int) -> bool {
        self.0 <= i < self.0 + self.2 && self.1 <= j < self.1 + self.3
    }

    /// Whether `p` lies in the rectangle; the bounds are half-open.
    pub open spec fn spec_contains(&self, p: Vec2D) -> bool {
        self.covers(p.0 as int, p.1 as int)
    }

    /// The number of cells of a well-formed rectangle.
    pub open spec fn area(self) -> int {
        self.2 * self.3
    }

    /// The `k`-th cell in row-major order.
    pub open spec fn cell(self, k: int) -> Vec2D {
        Vec2D((self.0 + k % (self.2 as int)) as i32, (self.1 + k / (self.2 as int)) as i32)
    }

    /// All cells in row-major order: the whole first row from left to right,
    /// then the next row.
    pub open spec fn cells(self) -> Seq<Vec2D> {
        Seq::new(self.area() as nat, |k: int| self.cell(k))
    }

    /// The row-major position of the cell `(i, j)`.
    pub open spec fn position(self, i: int, j: int) -> int {
        (j - self.1) * self.2 + (i - self.0)
    }

    /// The four signed gaps between two rectangles: how far `other` lies
    /// beyond the east and south sides of `self`, and how far `self` lies
    /// beyond the east and south sides of `other`. A gap is negative when the
    /// rectangles are not apart on that side.
    pub open spec fn gaps(self, other: Rect) -> Seq<int> {
        seq![
            other.0 - (self.0 + self.2),
            other.1 - (self.1 + self.3),
            self.0 - (other.0 + other.2),
            self.1 - (other.1 + other.3),
        ]
    }

    /// Whether the gaps, and the sums they are made of, are `i32` values.
    pub open spec fn measurable(self, other: Rect) -> bool {
        &&& fits_i32(self.0 + self.2)
        &&& fits_i32(self.1 + self.3)
        &&& fits_i32(other.0 + other.2)
        &&& fits_i32(other.1 + other.3)
        &&& forall|k: int| 0 <= k < 4 ==> fits_i32(#[trigger] self.gaps(other)[k])
    }

    /// The least of the gaps that are not negative, if there is one.
    pub open spec fn distance(self, other: Rect) -> Option<int> {
        let g = self.gaps(other);
        nearer(nearer(nearer(nearer(None, g[0]), g[1]), g[2]), g[3])
    }

    /// Two rectangles are separated when their distance is at least one: on
    /// some side they are apart, and on no side do they merely touch.
    pub open spec fn separated(self, other: Rect) -> bool {
        self.distance(other) matches Some(d) && d >= 1
    }

    /// The distance to `other`: the least non-negative gap, or `None` when
    /// the rectangles are apart on no side.
    pub fn distance_to(&self, other: &Rect) -> (d: Option<i32>)
        requires
            self.measurable(*other),
        ensures
            d is Some == self.distance(*other) is Some,
            d is Some ==> d.unwrap() == self.distance(*other).unwrap(),
    {
        let Rect(x1, y1, w1, h1) = *self;
        let Rect(x2, y2, w2, h2) = *other;
        proof {
            let g = self.gaps(*other);
            assert(fits_i32(g[0]) && fits_i32(g[1]) && fits_i32(g[2]) && fits_i32(g[3]));
        }
        let gaps = [x2 - (x1 + w1), y2 - (y1 + h1), x1 - (x2 + w2), y1 - (y2 + h2)];
        let mut best: Option<i32> = None;
        let mut k: usize = 0;
        while k < 4
            invariant
                0 <= k <= 4,
                gaps@ =~= self.gaps(*other).map_values(|g: int| g as i32),
                forall|i: int| 0 <= i < 4 ==> fits_i32(#[trigger] self.gaps(*other)[i]),
                k == 0 ==> best is None,
                k == 1 ==> Self::same(best, nearer(None, self.gaps(*other)[0])),
                k == 2 ==> Self::same(
                    best,
                    nearer(nearer(None, self.gaps(*other)[0]), self.gaps(*other)[1]),
                ),
                k == 3 ==> Self::same(
                    best,
                    nearer(
                        nearer(nearer(None, self.gaps(*other)[0]), self.gaps(*other)[1]),
                        self.gaps(*other)[2],
                    ),
                ),
                k == 4 ==> Self::same(best, self.distance(*other)),
            decreases 4 - k,
        {
            let gap = gaps[k];
            assert(gap == self.gaps(*other)[k as int]);
            if gap >= 0 {
                best = match best {
                    Some(b) if b <= gap => best,
                    _ => Some(gap),
                };
            }
            k += 1;
        }
        best
    }

    /// Whether an `i32` result stands for the mathematical one.
    pub open spec fn same(found: Option<i32>, expected: Option<int>) -> bool {
        match found {
            Some(f) => expected == Some(f as int),
            None => expected is None,
        }
    }

    /// Whether `p` lies in the rectangle; the bounds are half-open.
    #[verifier::when_used_as_spec(spec_contains)]
    pub fn contains(&self, p: Vec2D) -> (inside: bool)
        ensures
            inside == self.spec_contains(p),
    {
        let Rect(x, y, w, h) = *self;
        let Vec2D(i, j) = p;
        x <= i && (i as i64) < x as i64 + w as i64 && y <= j && (j as i64) < y as i64 + h as i64
    }

    /// The column of the left side.
    pub fn x(&self) -> (x: i32)
        ensures
            x == self.0,
    {
        self.0
    }

    /// The row of the top side.
    pub fn y(&self) -> (y: i32)
        ensures
            y == self.1,
    {
        self.1
    }

    /// The number of columns.
    pub fn width(&self) -> (width: i32)
        ensures
            width == self.2,
    {
        self.2
    }

    /// The number of rows.
    pub fn height(&self) -> (height: i32)
        ensures
            height == self.3,
    {
        self.3
    }

    /// Starts a walk over the cells of the rectangle in row-major order.
    pub fn into_iter(self) -> (walk: RectIntoIterator)
        requires
            self.wf(),
        ensures
            walk.wf(),
            walk.rect() == self,
            walk.index() == 0,
            walk.remaining() == self.cells(),
    {
        let walk = RectIntoIterator { rect: self, cur: Vec2D(self.0, self.1) };
        proof {
            assert(walk.index() == 0) by (nonlinear_arith)
                requires
                    walk.index() == (self.1 - self.1) * self.2 + (self.0 - self.0),
            ;
            assert(walk.remaining() =~= self.cells());
        }
        walk
    }

    /// The cells of the rectangle in row-major order.
    pub fn points(&self) -> (cells: Vec<Vec2D>)
        requires
            self.wf(),
        ensures
            cells@ == self.cells(),
    {
        let mut cells: Vec<Vec2D> = Vec::new();
        let mut walk = self.into_iter();
        loop
            invariant
                walk.wf(),
                walk.rect() == *self,
                cells@ + walk.remaining() == self.cells(),
            ensures
                cells@ == self.cells(),
            decreases walk.remaining().len(),
        {
            match walk.next() {
                Some(p) => {
                    proof {
                        let ghost rest = walk.remaining();
                        assert(cells@.push(p) + rest =~= self.cells());
                    }
                    cells.push(p);
                },
                None => {
                    assert(cells@ + walk.remaining() =~= cells@);
                    break ;
                },
            }
        }
        cells
    }
}

/// A walk over the cells of a rectangle in row-major order.
pub struct RectIntoIterator {
    rect: Rect,
    cur: Vec2D,
}

impl RectIntoIterator {
    /// The rectangle that is being walked.
    pub closed spec fn rect(self) -> Rect {
        self.rect
    }

    /// The cell that comes next, or the start of the row below the
    /// rectangle when the walk is over.
    pub closed spec fn cursor(self) -> Vec2D {
        self.cur
    }

    /// The cursor stands in the rectangle, or at the start of the row just
    /// below it.
    pub open spec fn wf(self) -> bool {
        let r = self.rect();
        let c = self.cursor();
        &&& r.wf()
        &&& r.0 <= c.0 < r.0 + r.2
        &&& r.1 <= c.1 <= r.1 + r.3
        &&& c.1 == r.1 + r.3 ==> c.0 == r.0
    }

    /// The number of cells that the walk has yielded.
    pub open spec fn index(self) -> int {
        self.rect().position(self.cursor().0 as int, self.cursor().1 as int)
    }

    /// The cells that the walk has yet to yield, in order.
    pub open spec fn remaining(self) -> Seq<Vec2D> {
        self.rect().cells().skip(self.index())
    }

    /// Yields the next cell, or `None` once every cell has been yielded.
    pub fn next(&mut self) -> (item: Option<Vec2D>)
        requires
            old(self).wf(),
        ensures
            final(self).wf(),
            final(self).rect() == old(self).rect(),
            0 <= old(self).index() <= old(self).rect().area(),
            match item {
                Some(p) => {
                    &&& old(self).remaining().len() > 0
                    &&& p == old(self).remaining()[0]
                    &&& final(self).remaining() == old(self).remaining().skip(1)
                    &&& final(self).index() == old(self).index() + 1
                },
                None => old(self).remaining().len() == 0 && *final(self) == *old(self),
            },
    {
        let Rect(x, y, w, h) = self.rect;
        let Vec2D(i, j) = self.cur;
        proof {
            lemma_position(self.rect, i as int, j as int);
        }
        proof {
            if j < y + h {
                assert(self.remaining().len() > 0);
                assert(self.remaining()[0] == self.rect.cells()[self.index()]);
            }
        }
        if j == y + h {
            None
        } else if i == x + w - 1 {
            self.cur = Vec2D(x, j + 1);
            proof {
                lemma_position(self.rect, x as int, j + 1);
                let before = old(self).index();
                let after = self.index();
                assert(after == before + 1) by (nonlinear_arith)
                    requires
                        after == (j + 1 - y) * w + (x - x),
                        before == (j - y) * w + (i - x),
                        i == x + w - 1,
                ;
                assert(self.remaining() =~= old(self).remaining().skip(1));
            }
            Some(Vec2D(i, j))
        } else {
            self.cur = Vec2D(i + 1, j);
            proof {
                lemma_position(self.rect, i + 1, j as int);
                assert(self.remaining() =~= old(self).remaining().skip(1));
            }
            Some(Vec2D(i, j))
        }
    }
}

/// Row-major positions and cells are inverse to each other: the position of
/// a cell `(i, j)` of `r` lies below the area and names that cell again. The
/// positions of the row just below `r` start at the area.
pub proof fn lemma_position(r: Rect, i: int, j: int)
    requires
        r.wf(),
        r.0 <= i < r.0 + r.2,
        r.1 <= j <= r.1 + r.3,
    ensures
        0 <= r.position(i, j),
        j < r.1 + r.3 ==> r.position(i, j) < r.area(),
        j == r.1 + r.3 ==> r.position(i, j) == r.area() + (i - r.0),
        r.position(i, j) % (r.2 as int) == i - r.0,
        r.position(i, j) / (r.2 as int) == j - r.1,
        j < r.1 + r.3 ==> r.cell(r.position(i, j)) == Vec2D(i as i32, j as i32),
{
    let w = r.2 as int;
    let h = r.3 as int;
    let row = j - r.1;
    let col = i - r.0;
    lemma_fundamental_div_mod_converse(r.position(i, j), w, row, col);
    lemma_mul_inequality(0, row, w);
    if j < r.1 + r.3 {
        lemma_mul_inequality(row + 1, h, w);
        lemma_mul_is_commutative(h, w);
        assert((row + 1) * w == row * w + w) by (nonlinear_arith);
    } else {
        lemma_mul_is_commutative(h, w);
    }
}

/// Every position below the area names a cell of the rectangle, and the
/// position of that cell is the one it was named by.
pub proof fn lemma_cell(r: Rect, k: int)
    requires
        r.wf(),
        0 <= k < r.area(),
    ensures
        r.spec_contains(r.cell(k)),
        r.cell(k).0 == r.0 + k % (r.2 as int),
        r.cell(k).1 == r.1 + k / (r.2 as int),
        r.position(r.cell(k).0 as int, r.cell(k).1 as int) == k,
{
    let w = r.2 as int;
    let h = r.3 as int;
    lemma_fundamental_div_mod(k, w);
    lemma_mul_is_commutative(w, k / w);
    assert(0 <= k % w < w);
    assert(0 <= k / w < h) by (nonlinear_arith)
        requires
            0 <= k < w * h,
            w > 0,
            k == (k / w) * w + k % w,
            0 <= k % w < w,
    ;
}

/// Walking a rectangle yields as many cells as its area, each of them inside
/// it, each cell of it exactly once, and in row-major order: a cell comes
/// before another exactly when it stands in a row above, or in the same row
/// further left.
pub proof fn lemma_cells_row_major(r: Rect)
    requires
        r.wf(),
    ensures
        r.cells().len() == r.2 * r.3,
        forall|k: int| 0 <= k < r.cells().len() ==> r.spec_contains(#[trigger] r.cells()[k]),
        forall|i: int, j: int|
            r.covers(i, j) ==> 0 <= #[trigger] r.position(i, j) < r.cells().len()
                && r.cells()[r.position(i, j)] == Vec2D(i as i32, j as i32),
        forall|k: int, l: int|
            0 <= k < r.cells().len() && 0 <= l < r.cells().len() ==> (k < l <==> {
                let p = #[trigger] r.cells()[k];
                let q = #[trigger] r.cells()[l];
                p.1 < q.1 || (p.1 == q.1 && p.0 < q.0)
            }),
{
    assert(r.area() >= 0) by (nonlinear_arith)
        requires
            r.area() == r.2 * r.3,
            r.2 > 0,
            r.3 > 0,
    ;
    assert forall|k: int| 0 <= k < r.cells().len() implies r.spec_contains(
        #[trigger] r.cells()[k],
    ) by {
        lemma_cell(r, k);
    }
    assert forall|i: int, j: int| r.covers(i, j) implies 0 <= #[trigger] r.position(i, j)
        < r.cells().len() && r.cells()[r.position(i, j)] == Vec2D(i as i32, j as i32) by {
        lemma_position(r, i, j);
    }
    assert forall|k: int, l: int|
        0 <= k < r.cells().len() && 0 <= l < r.cells().len() implies (k < l <==> {
            let p = #[trigger] r.cells()[k];
            let q = #[trigger] r.cells()[l];
            p.1 < q.1 || (p.1 == q.1 && p.0 < q.0)
        }) by {
        let w = r.2 as int;
        lemma_cell(r, k);
        lemma_cell(r, l);
        lemma_fundamental_div_mod(k, w);
        lemma_fundamental_div_mod(l, w);
        let (kq, kr, lq, lr) = (k / w, k % w, l / w, l % w);
        assert(k < l <==> (kq < lq || (kq == lq && kr < lr))) by (nonlinear_arith)
            requires
                k == w * kq + kr,
                l == w * lq + lr,
                0 <= kr < w,
                0 <= lr < w,
        ;
    }
}

/// What the distance is: `None` exactly when every gap is negative, and
/// otherwise one of the gaps, not negative, and no larger than any other gap
/// that is not negative.
pub proof fn lemma_distance_is_least_gap(a: Rect, b: Rect)
    ensures
        a.distance(b) is None <==> forall|k: int| 0 <= k < 4 ==> #[trigger] a.gaps(b)[k] < 0,
        a.distance(b) matches Some(d) ==> {
            &&& d >= 0
            &&& exists|k: int| 0 <= k < 4 && #[trigger] a.gaps(b)[k] == d
            &&& forall|k: int| 0 <= k < 4 && #[trigger] a.gaps(b)[k] >= 0 ==> d <= a.gaps(b)[k]
        },
{
    let g = a.gaps(b);
    if a.distance(b) is Some {
        let d = a.distance(b).unwrap();
        assert(g[0] == d || g[1] == d || g[2] == d || g[3] == d);
    }
}

/// Separated rectangles neither overlap nor touch: a cell of the one and a
/// cell of the other are at least two columns or two rows apart.
pub proof fn lemma_separated_apart(a: Rect, b: Rect, i: int, j: int, k: int, l: int)
    requires
        a.separated(b),
        a.covers(i, j),
        b.covers(k, l),
    ensures
        k - i >= 2 || i - k >= 2 || l - j >= 2 || j - l >= 2,
{
}

/// Separation does not depend on the order of the two rectangles.
pub proof fn lemma_separated_symmetric(a: Rect, b: Rect)
    ensures
        a.separated(b) == b.separated(a),
{
}

} // verus!
