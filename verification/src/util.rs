use rand::Rng;
use vstd::prelude::*;

verus! {

/// A cell coordinate: `x` is the column, `y` the row.
#[derive(Clone, Copy, PartialEq, Eq, Debug, Structural)]
pub struct Position {
    pub x: usize,
    pub y: usize,
}

/// The cells of the box whose top-left corner is `(x0, y0)` and which is `w`
/// columns wide and `h` rows high, row by row, each row from left to right.
pub open spec fn box_cells(x0: int, y0: int, w: int, h: int) -> Seq<Position> {
    Seq::new((w * h) as nat, |i: int| Position { x: (x0 + i % w) as usize, y: (y0 + i / w) as usize })
}

/// All cells of a grid of `w` columns and `h` rows in row-major order.
pub open spec fn row_major(w: int, h: int) -> Seq<Position> {
    box_cells(0, 0, w, h)
}

/// Leftmost column (or topmost row) of the box of the given radius around `c`.
pub open spec fn box_low(c: int, radius: int) -> int {
    if c >= radius {
        c - radius
    } else {
        0
    }
}

/// The box around `center`, clamped at zero, before the centre is left out.
pub open spec fn around_box(center: Position, radius: int) -> Seq<Position> {
    let lo_x = box_low(center.x as int, radius);
    let lo_y = box_low(center.y as int, radius);
    box_cells(lo_x, lo_y, center.x + radius - lo_x + 1, center.y + radius - lo_y + 1)
}

/// The cells at most `radius` away from `center` on each axis, without
/// `center` itself, in row-major order.
pub open spec fn around(center: Position, radius: int) -> Seq<Position> {
    around_box(center, radius).filter(other_than(center))
}

/// The test that `around` applies to each cell of the box.
pub open spec fn other_than(center: Position) -> spec_fn(Position) -> bool {
    |p: Position| p != center
}

/// Whether `q` is one of the (up to eight) cells that touch `p`.
pub open spec fn adjacent(p: Position, q: Position) -> bool {
    around(p, 1).contains(q)
}

/// Cell `(dx, dy)` of a box, counted from its corner, sits at index `dy * w + dx`.
pub proof fn lemma_box_index(x0: int, y0: int, w: int, h: int, dx: int, dy: int)
    requires
        0 <= dx < w,
        0 <= dy < h,
    ensures
        0 <= dy * w + dx < w * h,
        box_cells(x0, y0, w, h).len() == w * h,
        box_cells(x0, y0, w, h)[dy * w + dx] == (Position {
            x: (x0 + dx) as usize,
            y: (y0 + dy) as usize,
        }),
{
    vstd::arithmetic::div_mod::lemma_fundamental_div_mod_converse(dy * w + dx, w, dy, dx);
    assert(0 <= dy * w + dx < w * h) by (nonlinear_arith)
        requires
            0 <= dx < w,
            0 <= dy < h,
    ;
}

/// The cell at index `i` of a box lies in column `i % w` and row `i / w` of it.
pub proof fn lemma_box_cell(w: int, h: int, i: int)
    requires
        0 <= i < w * h,
        0 <= w,
        0 <= h,
    ensures
        0 < w,
        0 <= i % w < w,
        0 <= i / w < h,
        i == (i / w) * w + i % w,
{
    assert(0 < w) by (nonlinear_arith)
        requires
            0 <= i < w * h,
            0 <= w,
    ;
    vstd::arithmetic::div_mod::lemma_fundamental_div_mod(i, w);
    let q = i / w;
    let r = i % w;
    assert(0 <= r < w);
    assert(i == q * w + r) by (nonlinear_arith)
        requires
            i == w * q + r,
    ;
    assert(0 <= q < h) by (nonlinear_arith)
        requires
            i == q * w + r,
            0 <= r < w,
            0 <= i < w * h,
            0 <= h,
    ;
}

/// Every cell of a `w` by `h` grid occurs in `row_major(w, h)`, and nothing else.
pub proof fn lemma_row_major_contains(w: usize, h: usize, p: Position)
    ensures
        row_major(w as int, h as int).contains(p) <==> (p.x < w && p.y < h),
{
    let s = row_major(w as int, h as int);
    if p.x < w && p.y < h {
        lemma_box_index(0, 0, w as int, h as int, p.x as int, p.y as int);
        assert(s[p.y * w + p.x] == p);
    }
    if s.contains(p) {
        let i = choose|i: int| 0 <= i < s.len() && s[i] == p;
        lemma_box_cell(w as int, h as int, i);
    }
}

/// `row_major(w, h)` has `w * h` cells, no cell twice, and ends with the
/// bottom-right cell when the grid is not empty.
pub proof fn lemma_row_major_unique(w: usize, h: usize)
    ensures
        row_major(w as int, h as int).len() == w * h,
        row_major(w as int, h as int).no_duplicates(),
        w > 0 && h > 0 ==> row_major(w as int, h as int).last() == (Position {
            x: (w - 1) as usize,
            y: (h - 1) as usize,
        }),
{
    let s = row_major(w as int, h as int);
    assert(0 <= w * h) by (nonlinear_arith);
    assert forall|i: int, j: int| 0 <= i < s.len() && 0 <= j < s.len() && i != j implies s[i]
        != s[j] by {
        lemma_box_cell(w as int, h as int, i);
        lemma_box_cell(w as int, h as int, j);
    }
    if w > 0 && h > 0 {
        lemma_box_index(0, 0, w as int, h as int, w - 1, h - 1);
        assert((h - 1) * w + (w - 1) == w * h - 1) by (nonlinear_arith);
    }
}

/// The cells around `center` are exactly the cells other than `center` that
/// are at most `radius` away from it on each axis.
pub proof fn lemma_around_contains(center: Position, radius: usize, p: Position)
    requires
        center.x + radius <= usize::MAX,
        center.y + radius <= usize::MAX,
    ensures
        around(center, radius as int).contains(p) <==> (p != center && center.x - radius <= p.x
            <= center.x + radius && center.y - radius <= p.y <= center.y + radius),
{
    let lo_x = box_low(center.x as int, radius as int);
    let lo_y = box_low(center.y as int, radius as int);
    let w = center.x + radius - lo_x + 1;
    let h = center.y + radius - lo_y + 1;
    let b = around_box(center, radius as int);
    let pred = other_than(center);
    let s = around(center, radius as int);
    assert(0 <= w * h) by (nonlinear_arith)
        requires
            0 <= w,
            0 <= h,
    ;
    if s.contains(p) {
        let k = choose|k: int| 0 <= k < s.len() && s[k] == p;
        b.lemma_filter_pred(pred, k);
        b.lemma_filter_contains_rev(pred, p);
        let i = choose|i: int| 0 <= i < b.len() && b[i] == p;
        lemma_box_cell(w, h, i);
    }
    if p != center && center.x - radius <= p.x <= center.x + radius && center.y - radius <= p.y
        <= center.y + radius {
        lemma_box_index(lo_x, lo_y, w, h, p.x - lo_x, p.y - lo_y);
        let i = (p.y - lo_y) * w + (p.x - lo_x);
        assert(b[i] == p);
        b.lemma_filter_contains(pred, i);
    }
}

/// The cells of a grid of `w` columns and `h` rows, as a set.
pub open spec fn grid_cells(w: int, h: int) -> Set<Position> {
    Set::new(|p: Position| p.x < w && p.y < h)
}

/// A grid of `w` columns and `h` rows has `w * h` cells.
pub proof fn lemma_grid_cells(w: usize, h: usize)
    ensures
        grid_cells(w as int, h as int).finite(),
        grid_cells(w as int, h as int).len() == w * h,
{
    let s = row_major(w as int, h as int);
    lemma_row_major_unique(w, h);
    s.unique_seq_to_set();
    vstd::seq_lib::seq_to_set_is_finite(s);
    assert forall|p: Position| s.to_set().contains(p) <==> grid_cells(
        w as int,
        h as int,
    ).contains(p) by {
        lemma_row_major_contains(w, h, p);
    }
    assert(s.to_set() =~= grid_cells(w as int, h as int));
}

/// The cells that touch `p` are those that differ from it by at most one on
/// each axis, `p` itself left out.
pub proof fn lemma_adjacent(p: Position, q: Position)
    requires
        p.x < usize::MAX,
        p.y < usize::MAX,
    ensures
        adjacent(p, q) <==> (p != q && p.x - 1 <= q.x <= p.x + 1 && p.y - 1 <= q.y <= p.y + 1),
{
    lemma_around_contains(p, 1, q);
}

/// At most eight cells touch a cell.
pub proof fn lemma_around_len(center: Position)
    requires
        center.x < usize::MAX,
        center.y < usize::MAX,
    ensures
        around(center, 1).len() <= 8,
{
    let lo_x = box_low(center.x as int, 1);
    let lo_y = box_low(center.y as int, 1);
    let w = center.x + 1 - lo_x + 1;
    let h = center.y + 1 - lo_y + 1;
    let b = around_box(center, 1);
    let pred = other_than(center);
    assert(0 <= w * h <= 9) by (nonlinear_arith)
        requires
            0 <= w <= 3,
            0 <= h <= 3,
    ;
    lemma_box_index(lo_x, lo_y, w, h, center.x - lo_x, center.y - lo_y);
    let i = (center.y - lo_y) * w + (center.x - lo_x);
    assert(b[i] == center);
    lemma_filter_step(b, i, pred);
    assert(b =~= b.take(i) + b.skip(i));
    Seq::filter_distributes_over_add(b.take(i), b.skip(i), pred);
    b.take(i).lemma_filter_len(pred);
    b.skip(i + 1).lemma_filter_len(pred);
}

/// Splits the first cell off the filtered tail of a sequence.
pub proof fn lemma_filter_step(s: Seq<Position>, k: int, pred: spec_fn(Position) -> bool)
    requires
        0 <= k < s.len(),
    ensures
        s.skip(k).filter(pred) == (if pred(s[k]) {
            seq![s[k]]
        } else {
            Seq::empty()
        }) + s.skip(k + 1).filter(pred),
{
    assert(s.skip(k) =~= seq![s[k]] + s.skip(k + 1));
    s.skip(k + 1).lemma_filter_prepend(s[k], pred);
}

/// Calls `rand::thread_rng()` and, on the generator it hands out,
/// `Rng::gen_range(0..bound)`. That call panics on an empty range, which the
/// precondition rules out. Taken on trust of the result is only that it lies
/// in the range; which number comes is left open.
#[verifier::external_body]
pub(crate) fn random_below(bound: usize) -> (r: usize)
    requires
        bound > 0,
    ensures
        r < bound,
{
    rand::thread_rng().gen_range(0..bound)
}

impl Position {
    pub fn from_xy(x: usize, y: usize) -> (p: Self)
        ensures
            p.x == x,
            p.y == y,
    {
        Self { x, y }
    }

    pub fn from_row_col(row: usize, col: usize) -> (p: Self)
        ensures
            p.x == col,
            p.y == row,
    {
        Self::from_xy(col, row)
    }

    /// A random cell of a grid of `max_x` columns and `max_y` rows.
    pub fn random(max_x: usize, max_y: usize) -> (p: Self)
        requires
            max_x > 0,
            max_y > 0,
        ensures
            p.x < max_x,
            p.y < max_y,
    {
        let x: usize = random_below(max_x);
        let y: usize = random_below(max_y);
        Self { x, y }
    }

    pub fn iter_2d(max_x: usize, max_y: usize) -> (it: PositionIterator)
        ensures
            it.inv(),
            it@ == row_major(max_x as int, max_y as int),
    {
        PositionIterator::new(max_x, max_y)
    }

    pub fn iter_around(&self, radius: usize) -> (it: AroundIterator)
        requires
            self.x + radius <= usize::MAX,
            self.y + radius <= usize::MAX,
        ensures
            it.inv(),
            it@ == around(*self, radius as int),
    {
        AroundIterator::new(*self, radius)
    }

    pub fn zero() -> (p: Self)
        ensures
            p.x == 0,
            p.y == 0,
    {
        Self { x: 0, y: 0 }
    }
}

/// Walks a grid in row-major order. Its view is the sequence of cells that
/// are still to come.
#[derive(Clone)]
pub struct PositionIterator {
    current: Position,
    max_x: usize,
    max_y: usize,
}

impl View for PositionIterator {
    type V = Seq<Position>;

    closed spec fn view(&self) -> Seq<Position> {
        if self.live() {
            row_major(self.max_x as int, self.max_y as int).skip(
                self.current.y * self.max_x + self.current.x,
            )
        } else {
            Seq::empty()
        }
    }
}

impl PositionIterator {
    spec fn live(&self) -> bool {
        self.max_x > 0 && self.current.y < self.max_y
    }

    /// The cursor stays inside the grid until the walk is over.
    pub closed spec fn inv(&self) -> bool {
        self.live() ==> self.current.x < self.max_x
    }

    pub fn new(max_x: usize, max_y: usize) -> (it: Self)
        ensures
            it.inv(),
            it@ == row_major(max_x as int, max_y as int),
    {
        let it = Self { current: Position::zero(), max_x, max_y };
        proof {
            assert(0 <= max_x * max_y) by (nonlinear_arith);
            if it.live() {
                assert(it@ =~= row_major(max_x as int, max_y as int));
            } else {
                assert(max_x * max_y == 0) by (nonlinear_arith)
                    requires
                        max_x == 0 || max_y == 0,
                ;
                assert(it@ =~= row_major(max_x as int, max_y as int));
            }
        }
        it
    }

    /// Hands out the next cell, if one is left.
    pub fn next(&mut self) -> (r: Option<Position>)
        requires
            old(self).inv(),
        ensures
            final(self).inv(),
            old(self)@.len() == 0 ==> r.is_none() && final(self)@ == old(self)@,
            old(self)@.len() > 0 ==> r == Some(old(self)@[0]) && final(self)@ == old(self)@.skip(1),
    {
        if self.max_x == 0 || self.current.y >= self.max_y {
            return None;
        }
        let ghost w = self.max_x as int;
        let ghost h = self.max_y as int;
        let ghost k = self.current.y * self.max_x + self.current.x;
        let ghost all = row_major(w, h);
        proof {
            lemma_box_index(0, 0, w, h, self.current.x as int, self.current.y as int);
        }
        let ret = self.current;
        if self.current.x + 1 < self.max_x {
            self.current.x = self.current.x + 1;
        } else {
            self.current.x = 0;
            self.current.y = self.current.y + 1;
        }
        proof {
            assert((ret.y + 1) * w == ret.y * w + w) by (nonlinear_arith);
            assert(all.skip(k).skip(1) =~= all.skip(k + 1));
            if self.live() {
                assert(self@ == all.skip(k + 1));
            } else {
                assert(ret.y + 1 == h);
                assert(k + 1 == w * h) by (nonlinear_arith)
                    requires
                        k == ret.y * w + ret.x,
                        ret.x + 1 == w,
                        ret.y + 1 == h,
                ;
                assert(self@ =~= all.skip(k + 1));
            }
        }
        Some(ret)
    }

    /// The number of cells still to come, as lower and upper bound.
    pub fn size_hint(&self) -> (r: (usize, Option<usize>))
        requires
            self.inv(),
            self@.len() <= usize::MAX,
        ensures
            r.0 == self@.len(),
            r.1 == Some(r.0),
    {
        if self.max_x == 0 || self.current.y >= self.max_y {
            return (0, Some(0));
        }
        let remaining_in_row: usize = self.max_x - self.current.x;
        let rows_remaining: usize = self.max_y - self.current.y - 1;
        proof {
            let w = self.max_x as int;
            let h = self.max_y as int;
            let x = self.current.x as int;
            let y = self.current.y as int;
            lemma_box_index(0, 0, w, h, x, y);
            assert(w * (h - y - 1) == w * h - (y * w + x) - (w - x)) by (nonlinear_arith);
            assert(0 <= w * (h - y - 1)) by (nonlinear_arith)
                requires
                    0 <= w,
                    0 <= h - y - 1,
            ;
        }
        let total_remaining: usize = remaining_in_row + self.max_x * rows_remaining;
        (total_remaining, Some(total_remaining))
    }

    /// The number of cells still to come.
    pub fn count(self) -> (n: usize)
        requires
            self.inv(),
            self@.len() <= usize::MAX,
        ensures
            n == self@.len(),
    {
        self.size_hint().0
    }

    /// The last cell that the walk would reach, if any is left.
    pub fn last(self) -> (r: Option<Position>)
        requires
            self.inv(),
        ensures
            self@.len() == 0 ==> r.is_none(),
            self@.len() > 0 ==> r == Some(self@.last()),
    {
        if self.max_x == 0 || self.current.y >= self.max_y {
            return None;
        }
        proof {
            let w = self.max_x as int;
            let h = self.max_y as int;
            lemma_box_index(0, 0, w, h, self.current.x as int, self.current.y as int);
            lemma_box_index(0, 0, w, h, w - 1, h - 1);
            assert((h - 1) * w + (w - 1) == w * h - 1) by (nonlinear_arith);
        }
        Some(Position::from_xy(self.max_x - 1, self.max_y - 1))
    }

    /// Runs the walk to its end and gathers the cells.
    pub fn collect(self) -> (v: Vec<Position>)
        requires
            self.inv(),
        ensures
            v@ == self@,
    {
        let mut it = self;
        let mut v: Vec<Position> = Vec::new();
        loop
            invariant
                it.inv(),
                v@ + it@ == self@,
            ensures
                it@.len() == 0,
            decreases it@.len(),
        {
            let ghost before = it@;
            match it.next() {
                Some(p) => {
                    v.push(p);
                    proof {
                        assert(v@ + it@ =~= v@.drop_last() + before);
                    }
                },
                None => {
                    break ;
                },
            }
        }
        proof {
            assert(v@ =~= v@ + it@);
        }
        v
    }
}

/// Walks the cells around a centre in row-major order, leaving the centre
/// out. Its view is the sequence of cells that are still to come.
#[derive(Clone)]
pub struct AroundIterator {
    current: Position,
    center: Position,
    radius: usize,
    done: bool,
}

impl View for AroundIterator {
    type V = Seq<Position>;

    closed spec fn view(&self) -> Seq<Position> {
        around_box(self.center, self.radius as int).skip(self.cursor()).filter(
            other_than(self.center),
        )
    }
}

impl AroundIterator {
    spec fn lo_x(&self) -> int {
        box_low(self.center.x as int, self.radius as int)
    }

    spec fn lo_y(&self) -> int {
        box_low(self.center.y as int, self.radius as int)
    }

    spec fn width(&self) -> int {
        self.center.x + self.radius - self.lo_x() + 1
    }

    spec fn height(&self) -> int {
        self.center.y + self.radius - self.lo_y() + 1
    }

    /// Index in the box of the cell under the cursor.
    spec fn cursor(&self) -> int {
        if self.done {
            self.width() * self.height()
        } else {
            (self.current.y - self.lo_y()) * self.width() + (self.current.x - self.lo_x())
        }
    }

    /// The box fits the machine's integers and the cursor stays inside it
    /// until the walk is over.
    pub closed spec fn inv(&self) -> bool {
        &&& self.center.x + self.radius <= usize::MAX
        &&& self.center.y + self.radius <= usize::MAX
        &&& !self.done ==> {
            &&& self.lo_x() <= self.current.x <= self.center.x + self.radius
            &&& self.lo_y() <= self.current.y <= self.center.y + self.radius
        }
    }

    pub fn new(center: Position, radius: usize) -> (it: Self)
        requires
            center.x + radius <= usize::MAX,
            center.y + radius <= usize::MAX,
        ensures
            it.inv(),
            it@ == around(center, radius as int),
    {
        let current = Position::from_xy(
            center.x.saturating_sub(radius),
            center.y.saturating_sub(radius),
        );
        let it = Self { center, radius, current, done: false };
        proof {
            assert(0 * it.width() + 0 == 0);
            assert(it.cursor() == 0) by (nonlinear_arith)
                requires
                    it.cursor() == (it.current.y - it.lo_y()) * it.width() + (it.current.x
                        - it.lo_x()),
                    it.current.y - it.lo_y() == 0,
                    it.current.x - it.lo_x() == 0,
            ;
            assert(around_box(center, radius as int).skip(0) =~= around_box(center, radius as int));
        }
        it
    }

    /// Hands out the next cell, if one is left.
    pub fn next(&mut self) -> (r: Option<Position>)
        requires
            old(self).inv(),
        ensures
            final(self).inv(),
            old(self)@.len() == 0 ==> r.is_none() && final(self)@ == old(self)@,
            old(self)@.len() > 0 ==> r == Some(old(self)@[0]) && final(self)@ == old(self)@.skip(1),
    {
        let ghost start = self@;
        let ghost cells = around_box(self.center, self.radius as int);
        let ghost pred = other_than(self.center);
        let ghost w = self.width();
        let ghost h = self.height();
        proof {
            assert(0 <= w * h) by (nonlinear_arith)
                requires
                    0 <= w,
                    0 <= h,
            ;
        }
        while !self.done
            invariant
                self.inv(),
                self.center == old(self).center,
                self.radius == old(self).radius,
                self@ == start,
                start == old(self)@,
                cells == around_box(self.center, self.radius as int),
                pred == other_than(self.center),
                w == self.width(),
                h == self.height(),
                cells.len() == w * h,
            decreases w * h - self.cursor(),
        {
            let ret = self.current;
            let ghost k = self.cursor();
            proof {
                lemma_box_index(
                    self.lo_x(),
                    self.lo_y(),
                    w,
                    h,
                    ret.x - self.lo_x(),
                    ret.y - self.lo_y(),
                );
                lemma_filter_step(cells, k, pred);
            }
            if self.current.x < self.center.x + self.radius {
                self.current.x = self.current.x + 1;
            } else if self.current.y < self.center.y + self.radius {
                self.current.x = self.center.x.saturating_sub(self.radius);
                self.current.y = self.current.y + 1;
                proof {
                    assert((ret.y + 1 - self.lo_y()) * w == (ret.y - self.lo_y()) * w + w)
                        by (nonlinear_arith);
                }
            } else {
                self.done = true;
                proof {
                    assert((h - 1) * w + (w - 1) + 1 == w * h) by (nonlinear_arith);
                }
            }
            assert(self.cursor() == k + 1);
            if ret != self.center {
                proof {
                    assert(start =~= seq![ret] + self@);
                    assert(start.skip(1) =~= self@);
                }
                return Some(ret);
            }
            proof {
                assert(start =~= self@);
            }
        }
        proof {
            assert(cells.skip(w * h) =~= Seq::<Position>::empty());
            reveal(Seq::filter);
            assert(self@ =~= Seq::<Position>::empty());
        }
        None
    }

    /// Runs the walk to its end and gathers the cells.
    pub fn collect(self) -> (v: Vec<Position>)
        requires
            self.inv(),
        ensures
            v@ == self@,
    {
        let mut it = self;
        let mut v: Vec<Position> = Vec::new();
        loop
            invariant
                it.inv(),
                v@ + it@ == self@,
            ensures
                it@.len() == 0,
            decreases it@.len(),
        {
            let ghost before = it@;
            match it.next() {
                Some(p) => {
                    v.push(p);
                    proof {
                        assert(v@ + it@ =~= v@.drop_last() + before);
                    }
                },
                None => {
                    break ;
                },
            }
        }
        proof {
            assert(v@ =~= v@ + it@);
        }
        v
    }
}

} // verus!
