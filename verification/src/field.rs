pub mod laws;
pub mod model;
pub mod tile;

use crate::field::laws::lemma_closed_holds_flood;
use crate::field::laws::lemma_free_len;
use crate::field::laws::lemma_reach_start;
use crate::field::laws::lemma_reach_step;
use crate::field::laws::lemma_reveal_keeps;
use crate::field::laws::lemma_with_mine;
use crate::field::laws::flood_closed;
use crate::field::model::member_of;
use crate::field::model::precedes;
use crate::field::model::rows_text;
use crate::field::model::row_text;
use crate::field::model::FieldView;
use crate::field::tile::Tile;
use crate::field::tile::TileKind;
use crate::util::adjacent;
use crate::util::around;
use crate::util::grid_cells;
use crate::util::lemma_around_len;
use crate::util::lemma_filter_step;
use crate::util::lemma_grid_cells;
use crate::util::lemma_row_major_contains;
use crate::util::random_below;
use crate::util::row_major;
use crate::util::Position;
use vstd::prelude::*;

verus! {

/// What opening a tile came to.
#[derive(Clone, Copy, PartialEq, Eq, Debug, Structural)]
pub enum RevealOutcome {
    /// The field has no such tile; nothing changed.
    OutOfBounds,
    /// The tile was open already; nothing changed.
    AlreadyShown,
    /// No mine was hit, and `count` tiles were opened.
    SafeRevealed { count: usize },
    /// The tile held a mine.
    MineRevealed,
}

/// Taken on trust of std's `String::push`: it appends the character to the
/// string and leaves what the string held before in place.
pub assume_specification[ String::push ](s: &mut String, ch: char)
    ensures
        final(s)@ == old(s)@.push(ch),
;

/// Whether the cell `q` is ticked in a matrix of marks.
spec fn marked(seen: Seq<Vec<bool>>, q: Position) -> bool {
    q.y < seen.len() && q.x < seen[q.y as int]@.len() && seen[q.y as int]@[q.x as int]
}

/// The cells that are ticked in a matrix of marks.
spec fn mark_set(seen: Seq<Vec<bool>>) -> Set<Position> {
    Set::new(|q: Position| marked(seen, q))
}

/// The hidden tiles among `marks`.
spec fn hidden_among(v: FieldView, marks: Set<Position>) -> Set<Position> {
    Set::new(|q: Position| marks.contains(q) && !v.tile(q).is_showing)
}

/// A matrix of marks with nothing ticked.
fn blank_marks(height: usize, width: usize) -> (seen: Vec<Vec<bool>>)
    ensures
        seen@.len() == height,
        forall|y: int| 0 <= y < height ==> (#[trigger] seen@[y])@.len() == width,
        mark_set(seen@) == Set::<Position>::empty(),
{
    let mut seen: Vec<Vec<bool>> = Vec::new();
    let mut y: usize = 0;
    while y < height
        invariant
            y <= height,
            seen@.len() == y,
            forall|j: int| 0 <= j < y ==> (#[trigger] seen@[j])@.len() == width,
            forall|j: int, i: int| 0 <= j < y && 0 <= i < width ==> !(#[trigger] seen@[j]@[i]),
        decreases height - y,
    {
        let mut row: Vec<bool> = Vec::new();
        let mut x: usize = 0;
        while x < width
            invariant
                x <= width,
                row@.len() == x,
                forall|i: int| 0 <= i < x ==> !(#[trigger] row@[i]),
            decreases width - x,
        {
            row.push(false);
            x = x + 1;
        }
        seen.push(row);
        y = y + 1;
    }
    proof {
        assert(mark_set(seen@) =~= Set::<Position>::empty());
    }
    seen
}

/// Puts the cells that touch `q` on top of a stack.
fn push_around(work: &mut Vec<Position>, q: Position)
    requires
        q.x < usize::MAX,
        q.y < usize::MAX,
    ensures
        final(work)@.len() >= old(work)@.len(),
        forall|i: int| 0 <= i < old(work)@.len() ==> final(work)@[i] == old(work)@[i],
        forall|i: int| old(work)@.len() <= i < final(work)@.len() ==> adjacent(q, final(work)@[i]),
        forall|o: Position| adjacent(q, o) ==> final(work)@.contains(o),
        forall|o: Position| old(work)@.contains(o) ==> final(work)@.contains(o),
{
    let mut it = q.iter_around(1);
    let ghost all = it@;
    let ghost k: int = 0;
    let ghost base = work@.len();
    proof {
        assert(all.skip(0) =~= all);
    }
    loop
        invariant
            it.inv(),
            0 <= k <= all.len(),
            it@ == all.skip(k),
            all == around(q, 1),
            base == old(work)@.len(),
            work@.len() == base + k,
            forall|i: int| 0 <= i < base ==> work@[i] == old(work)@[i],
            forall|j: int| 0 <= j < k ==> work@[base + j] == all[j],
        ensures
            k == all.len(),
        decreases it@.len(),
    {
        match it.next() {
            Some(r) => {
                work.push(r);
                proof {
                    assert(all[k] == r);
                    assert(all.skip(k).skip(1) =~= all.skip(k + 1));
                    k = k + 1;
                }
            },
            None => {
                break ;
            },
        }
    }
    proof {
        assert forall|i: int| base <= i < work@.len() implies adjacent(q, work@[i]) by {
            assert(work@[base + (i - base)] == all[i - base]);
        }
        assert forall|o: Position| adjacent(q, o) implies work@.contains(o) by {
            let j = choose|j: int| 0 <= j < all.len() && all[j] == o;
            assert(work@[base + j] == o);
        }
        assert forall|o: Position| old(work)@.contains(o) implies work@.contains(o) by {
            let i = choose|i: int| 0 <= i < old(work)@.len() && old(work)@[i] == o;
            assert(work@[i] == o);
        }
    }
}

/// A minesweeper field.
pub struct Field {
    height: usize,
    width: usize,
    num_mines: usize,
    minefield: Vec<Vec<Tile>>,
}

impl View for Field {
    type V = FieldView;

    closed spec fn view(&self) -> FieldView {
        FieldView {
            height: self.height as int,
            width: self.width as int,
            num_mines: self.num_mines as int,
            tiles: self.minefield@.map_values(|row: Vec<Tile>| row@),
        }
    }
}

impl Field {
    pub fn height(&self) -> (h: usize)
        ensures
            h == self@.height,
    {
        self.height
    }

    pub fn width(&self) -> (w: usize)
        ensures
            w == self@.width,
    {
        self.width
    }

    pub fn num_mines(&self) -> (n: usize)
        ensures
            n == self@.num_mines,
    {
        self.num_mines
    }

    /// The tile in column `x` of row `y`, if the field has one there.
    pub fn try_tile_at(&self, x: usize, y: usize) -> (r: Option<&Tile>)
        requires
            self@.grid_ok(),
        ensures
            self@.in_bounds(Position { x, y }) ==> r == Some(&self@.tile(Position { x, y })),
            !self@.in_bounds(Position { x, y }) ==> r.is_none(),
    {
        if y < self.minefield.len() {
            assert(self@.tiles[y as int] == self.minefield@[y as int]@);
            if x < self.minefield[y].len() {
                return Some(&self.minefield[y][x]);
            }
        }
        None
    }

    /// The tile in column `x` of row `y`.
    pub fn tile_at(&self, x: usize, y: usize) -> (r: &Tile)
        requires
            self@.grid_ok(),
            self@.in_bounds(Position { x, y }),
        ensures
            *r == self@.tile(Position { x, y }),
    {
        assert(self@.tiles[y as int] == self.minefield@[y as int]@);
        &self.minefield[y][x]
    }

    /// The tile in column `x` of row `y`, for writing, if the field has one
    /// there. Whatever is written replaces that tile and no other.
    fn try_mut_tile_at(&mut self, x: usize, y: usize) -> (r: Option<&mut Tile>)
        requires
            old(self)@.grid_ok(),
        ensures
            !old(self)@.in_bounds(Position { x, y }) ==> r.is_none() && *final(self) == *old(self),
            old(self)@.in_bounds(Position { x, y }) ==> r.is_some() && *r.unwrap() == old(
                self,
            )@.tile(Position { x, y }) && final(self).replaced(*old(self), x, y, *final(r.unwrap())),
    {
        if y < self.minefield.len() {
            assert(self@.tiles[y as int] == self.minefield@[y as int]@);
            if x < self.minefield[y].len() {
                return Some(&mut self.minefield[y][x]);
            }
        }
        None
    }

    /// The tile in column `x` of row `y`, for writing.
    fn mut_tile_at(&mut self, x: usize, y: usize) -> (r: &mut Tile)
        requires
            old(self)@.grid_ok(),
            old(self)@.in_bounds(Position { x, y }),
        ensures
            *r == old(self)@.tile(Position { x, y }),
            final(self).replaced(*old(self), x, y, *final(r)),
    {
        self.try_mut_tile_at(x, y).unwrap()
    }

    /// Whether `self` is `before` with `t` in column `x` of row `y`.
    spec fn replaced(&self, before: Field, x: usize, y: usize, t: Tile) -> bool {
        &&& self.height == before.height
        &&& self.width == before.width
        &&& self.num_mines == before.num_mines
        &&& self.minefield@.len() == before.minefield@.len()
        &&& forall|j: int|
            0 <= j < self.minefield@.len() && j != y ==> #[trigger] self.minefield@[j]
                == before.minefield@[j]
        &&& self.minefield@[y as int]@ == before.minefield@[y as int]@.update(x as int, t)
    }

    /// Puts `t` in column `x` of row `y`.
    fn set_tile(&mut self, x: usize, y: usize, t: Tile)
        requires
            old(self)@.grid_ok(),
            old(self)@.in_bounds(Position { x, y }),
            t.position == (Position { x, y }),
            t.wf(),
        ensures
            final(self)@ == old(self)@.with_tile(Position { x, y }, t),
            final(self)@.grid_ok(),
    {
        *self.mut_tile_at(x, y) = t;
        proof {
            let p = Position { x, y };
            assert(old(self)@.tiles[y as int] == old(self).minefield@[y as int]@);
            assert(self@.tiles =~= old(self)@.with_tile(p, t).tiles);
            assert forall|q: Position| self@.in_bounds(q) implies (#[trigger] self@.tile(
                q,
            )).position == q && self@.tile(q).wf() by {
                assert(old(self)@.tile(q).position == q);
            }
        }
    }

    /// A field of hidden tiles without mines.
    fn blank(height: usize, width: usize, num_mines: usize) -> (f: Self)
        requires
            height * width <= usize::MAX,
        ensures
            f@.grid_ok(),
            f@.height == height,
            f@.width == width,
            f@.num_mines == num_mines,
            forall|p: Position|
                f@.in_bounds(p) ==> #[trigger] f@.tile(p) == (Tile {
                    is_showing: false,
                    kind: TileKind::NotMine { neighbor_mines: 0 },
                    position: p,
                }),
    {
        let mut minefield: Vec<Vec<Tile>> = Vec::new();
        let mut row_num: usize = 0;
        while row_num < height
            invariant
                row_num <= height,
                minefield@.len() == row_num,
                forall|y: int| 0 <= y < row_num ==> (#[trigger] minefield@[y])@.len() == width,
                forall|y: int, x: int|
                    0 <= y < row_num && 0 <= x < width ==> (#[trigger] minefield@[y]@[x]) == (Tile {
                        is_showing: false,
                        kind: TileKind::NotMine { neighbor_mines: 0 },
                        position: Position { x: x as usize, y: y as usize },
                    }),
            decreases height - row_num,
        {
            let mut row: Vec<Tile> = Vec::new();
            let mut col_num: usize = 0;
            while col_num < width
                invariant
                    col_num <= width,
                    row_num < height,
                    row@.len() == col_num,
                    forall|x: int|
                        0 <= x < col_num ==> (#[trigger] row@[x]) == (Tile {
                            is_showing: false,
                            kind: TileKind::NotMine { neighbor_mines: 0 },
                            position: Position { x: x as usize, y: row_num },
                        }),
                decreases width - col_num,
            {
                row.push(Tile::new_non_mine(Position::from_xy(col_num, row_num), 0));
                col_num = col_num + 1;
            }
            minefield.push(row);
            row_num = row_num + 1;
        }
        let f = Self { height, width, num_mines, minefield };
        proof {
            assert forall|p: Position| f@.in_bounds(p) implies #[trigger] f@.tile(p) == (Tile {
                is_showing: false,
                kind: TileKind::NotMine { neighbor_mines: 0 },
                position: p,
            }) by {
                assert(f@.tiles[p.y as int] == f.minefield@[p.y as int]@);
            }
        }
        f
    }

    /// Builds a field of hidden tiles and scatters `num_mines` mines over it.
    pub fn new(height: usize, width: usize, num_mines: usize) -> (f: Self)
        requires
            height * width <= usize::MAX,
            num_mines <= height * width,
        ensures
            f@.wf(),
            f@.height == height,
            f@.width == width,
            f@.num_mines == num_mines,
            forall|p: Position| f@.in_bounds(p) ==> !(#[trigger] f@.tile(p)).is_showing,
    {
        let mut ret = Self::blank(height, width, num_mines);
        ret.reset();
        ret
    }

    /// Builds a field as `new` does, and refuses where the field would be
    /// too large for this machine or had fewer tiles than mines.
    pub fn try_new(height: usize, width: usize, num_mines: usize) -> (r: Option<Self>)
        ensures
            r.is_some() <==> height * width <= usize::MAX && num_mines <= height * width,
            r.is_some() ==> r.unwrap()@.wf() && r.unwrap()@.height == height && r.unwrap()@.width
                == width && r.unwrap()@.num_mines == num_mines,
            r.is_some() ==> forall|p: Position|
                r.unwrap()@.in_bounds(p) ==> !(#[trigger] r.unwrap()@.tile(p)).is_showing,
    {
        match height.checked_mul(width) {
            Some(tiles) => {
                if num_mines <= tiles {
                    Some(Self::new(height, width, num_mines))
                } else {
                    None
                }
            },
            None => None,
        }
    }

    /// Takes all mines off the field, scatters `num_mines` new ones and
    /// counts again. No tile is hidden or shown by this.
    ///
    /// Each mine goes to a cell drawn at random. Where that cell holds a mine
    /// already, the draw is not repeated without end: one of the free cells
    /// is drawn instead, each with the same chance.
    pub fn reset(&mut self)
        requires
            old(self)@.grid_ok(),
            old(self)@.num_mines <= old(self)@.height * old(self)@.width,
        ensures
            final(self)@.wf(),
            final(self)@.height == old(self)@.height,
            final(self)@.width == old(self)@.width,
            final(self)@.num_mines == old(self)@.num_mines,
            forall|p: Position|
                old(self)@.in_bounds(p) ==> (#[trigger] final(self)@.tile(p)).is_showing == old(
                    self,
                )@.tile(p).is_showing,
    {
        self.clear_mines();
        proof {
            assert(self@.width * self@.height == self@.height * self@.width) by (nonlinear_arith);
        }
        let total: usize = self.width * self.height;
        let mut placed: usize = 0;
        while placed < self.num_mines
            invariant
                self@.grid_ok(),
                self@.height == old(self)@.height,
                self@.width == old(self)@.width,
                self@.num_mines == old(self)@.num_mines,
                self@.num_mines <= total,
                total == self@.width * self@.height,
                self@.mines().finite(),
                self@.mines().len() == placed,
                placed <= self@.num_mines,
                forall|p: Position|
                    self@.in_bounds(p) ==> (#[trigger] self@.tile(p)).is_showing == old(
                        self,
                    )@.tile(p).is_showing,
            decreases self@.num_mines - placed,
        {
            let ghost pre = self@;
            proof {
                lemma_free_len(pre);
                assert(self@.width > 0 && self@.height > 0) by (nonlinear_arith)
                    requires
                        self@.width * self@.height > 0,
                        self@.width >= 0,
                        self@.height >= 0,
                ;
            }
            let first = Position::random(self.width, self.height);
            let p = if self.tile_at(first.x, first.y).has_mine() {
                let n: usize = random_below(total - placed);
                self.place_nth_free(n)
            } else {
                self.place_mine(first);
                first
            };
            proof {
                lemma_with_mine(pre, p);
                assert forall|q: Position| self@.in_bounds(q) implies (#[trigger] self@.tile(
                    q,
                )).is_showing == old(self)@.tile(q).is_showing by {
                    assert(pre.tile(q).is_showing == old(self)@.tile(q).is_showing);
                }
            }
            placed = placed + 1;
        }
        self.update_tile_counts();
    }

    /// Turns every mine into a tile without a mine.
    fn clear_mines(&mut self)
        requires
            old(self)@.grid_ok(),
        ensures
            final(self)@.grid_ok(),
            final(self)@.height == old(self)@.height,
            final(self)@.width == old(self)@.width,
            final(self)@.num_mines == old(self)@.num_mines,
            final(self)@.mines() == Set::<Position>::empty(),
            forall|p: Position|
                old(self)@.in_bounds(p) ==> (#[trigger] final(self)@.tile(p)).is_showing == old(
                    self,
                )@.tile(p).is_showing,
    {
        let mut y: usize = 0;
        while y < self.height
            invariant
                self@.grid_ok(),
                self@.height == old(self)@.height,
                self@.width == old(self)@.width,
                self@.num_mines == old(self)@.num_mines,
                y <= self@.height,
                forall|p: Position|
                    self@.in_bounds(p) ==> (#[trigger] self@.tile(p)).is_showing == old(
                        self,
                    )@.tile(p).is_showing,
                forall|p: Position| self@.in_bounds(p) && p.y < y ==> !#[trigger] self@.is_mine(p),
            decreases self@.height - y,
        {
            let mut x: usize = 0;
            while x < self.width
                invariant
                    self@.grid_ok(),
                    self@.height == old(self)@.height,
                    self@.width == old(self)@.width,
                    self@.num_mines == old(self)@.num_mines,
                    y < self@.height,
                    x <= self@.width,
                    forall|p: Position|
                        self@.in_bounds(p) ==> (#[trigger] self@.tile(p)).is_showing == old(
                            self,
                        )@.tile(p).is_showing,
                    forall|p: Position|
                        self@.in_bounds(p) && precedes(p, Position { x, y })
                            ==> !#[trigger] self@.is_mine(p),
                decreases self@.width - x,
            {
                let ghost pre = self@;
                let mut t = *self.tile_at(x, y);
                if t.has_mine() {
                    t.kind = TileKind::NotMine { neighbor_mines: 0 };
                    self.set_tile(x, y, t);
                }
                proof {
                    assert forall|p: Position| self@.in_bounds(p) implies (#[trigger] self@.tile(
                        p,
                    )).is_showing == old(self)@.tile(p).is_showing by {
                        assert(pre.tile(p).is_showing == old(self)@.tile(p).is_showing);
                    }
                    assert forall|p: Position|
                        self@.in_bounds(p) && precedes(
                            p,
                            Position { x: (x + 1) as usize, y },
                        ) implies !#[trigger] self@.is_mine(p) by {
                        if precedes(p, Position { x, y }) {
                            assert(!pre.is_mine(p));
                        }
                    }
                }
                x = x + 1;
            }
            y = y + 1;
        }
        proof {
            assert forall|p: Position| !self@.mines().contains(p) by {
                if self@.in_bounds(p) {
                    assert(!self@.is_mine(p));
                }
            }
            assert(self@.mines() =~= Set::<Position>::empty());
        }
    }

    /// Puts a mine into the tile at `p`.
    fn place_mine(&mut self, p: Position)
        requires
            old(self)@.grid_ok(),
            old(self)@.in_bounds(p),
        ensures
            final(self)@ == old(self)@.with_mine(p),
    {
        let mut t = *self.tile_at(p.x, p.y);
        t.place_mine_at();
        self.set_tile(p.x, p.y, t);
    }

    /// Puts a mine into the free tile that has exactly `n` free tiles before
    /// it in row-major order, and says where that is.
    pub fn place_nth_free(&mut self, n: usize) -> (p: Position)
        requires
            old(self)@.grid_ok(),
            n < old(self)@.free().len(),
        ensures
            old(self)@.in_bounds(p),
            !old(self)@.is_mine(p),
            old(self)@.free_before(p).len() == n,
            final(self)@ == old(self)@.with_mine(p),
    {
        let ghost v = self@;
        let mut skip: usize = n;
        let mut y: usize = 0;
        proof {
            lemma_free_len(v);
            assert(v.free_before(Position { x: 0, y: 0 }) =~= Set::<Position>::empty());
        }
        while y < self.height
            invariant
                self@ == v,
                v == old(self)@,
                v.grid_ok(),
                y <= v.height,
                v.free_before(Position { x: 0, y }).finite(),
                skip + v.free_before(Position { x: 0, y }).len() == n,
            decreases v.height - y,
        {
            let mut x: usize = 0;
            while x < self.width
                invariant
                    self@ == v,
                    v == old(self)@,
                    v.grid_ok(),
                    y < v.height,
                    x <= v.width,
                    v.free_before(Position { x, y }).finite(),
                    skip + v.free_before(Position { x, y }).len() == n,
                decreases v.width - x,
            {
                let here = Position::from_xy(x, y);
                let ghost next = Position { x: (x + 1) as usize, y };
                if !self.tile_at(x, y).has_mine() {
                    if skip == 0 {
                        self.place_mine(here);
                        return here;
                    }
                    skip = skip - 1;
                    proof {
                        assert(v.free_before(next) =~= v.free_before(here).insert(here));
                    }
                } else {
                    proof {
                        assert(v.free_before(next) =~= v.free_before(here));
                    }
                }
                x = x + 1;
            }
            proof {
                assert(v.free_before(Position { x: 0, y: (y + 1) as usize }) =~= v.free_before(
                    Position { x, y },
                ));
            }
            y = y + 1;
        }
        proof {
            assert(v.free_before(Position { x: 0, y }) =~= v.free());
        }
        Position::zero()
    }

    /// Counts the mines that touch the tile in column `tile_x` of row `tile_y`.
    pub fn count_neighbor_mines(&self, tile_x: usize, tile_y: usize) -> (count: u8)
        requires
            self@.grid_ok(),
            self@.in_bounds(Position { x: tile_x, y: tile_y }),
        ensures
            count == self@.neighbor_mines(Position { x: tile_x, y: tile_y }),
            count <= 8,
    {
        let center = Position::from_xy(tile_x, tile_y);
        let mut it = center.iter_around(1);
        let ghost all = it@;
        let ghost pred = member_of(self@.mines());
        let mut count: u8 = 0;
        proof {
            lemma_around_len(center);
            all.lemma_filter_len(pred);
        }
        loop
            invariant
                it.inv(),
                self@.grid_ok(),
                pred == member_of(self@.mines()),
                count + it@.filter(pred).len() == all.filter(pred).len(),
                all.filter(pred).len() <= 8,
            ensures
                count == all.filter(pred).len(),
            decreases it@.len(),
        {
            let ghost before = it@;
            match it.next() {
                Some(neighbor) => {
                    proof {
                        assert(before.skip(0) =~= before);
                        lemma_filter_step(before, 0, pred);
                    }
                    let mined = match self.try_tile_at(neighbor.x, neighbor.y) {
                        Some(t) => t.has_mine(),
                        None => false,
                    };
                    if mined {
                        count = count + 1;
                    }
                },
                None => {
                    proof {
                        before.lemma_filter_len(pred);
                    }
                    break ;
                },
            }
        }
        count
    }

    /// Writes into every tile without a mine the number of mines that touch it.
    pub fn update_tile_counts(&mut self)
        requires
            old(self)@.grid_ok(),
        ensures
            final(self)@.grid_ok(),
            final(self)@.counts_ok(),
            final(self)@.height == old(self)@.height,
            final(self)@.width == old(self)@.width,
            final(self)@.num_mines == old(self)@.num_mines,
            final(self)@.mines() == old(self)@.mines(),
            forall|p: Position|
                old(self)@.in_bounds(p) ==> (#[trigger] final(self)@.tile(p)).is_showing == old(
                    self,
                )@.tile(p).is_showing,
    {
        let mut it = Position::iter_2d(self.width, self.height);
        let ghost all = it@;
        let ghost k: int = 0;
        proof {
            assert(all.skip(0) =~= all);
        }
        loop
            invariant
                it.inv(),
                0 <= k <= all.len(),
                it@ == all.skip(k),
                all == row_major(self@.width, self@.height),
                self@.grid_ok(),
                self@.height == old(self)@.height,
                self@.width == old(self)@.width,
                self@.num_mines == old(self)@.num_mines,
                self@.mines() == old(self)@.mines(),
                forall|p: Position|
                    self@.in_bounds(p) ==> (#[trigger] self@.tile(p)).is_showing == old(
                        self,
                    )@.tile(p).is_showing,
                forall|j: int| 0 <= j < k ==> self@.count_ok_at(#[trigger] all[j]),
            ensures
                k == all.len(),
            decreases it@.len(),
        {
            let ghost pre = self@;
            match it.next() {
                Some(p) => {
                    proof {
                        assert(all[k] == p);
                        lemma_row_major_contains(self.width, self.height, p);
                    }
                    let count: u8 = self.count_neighbor_mines(p.x, p.y);
                    let mut t = *self.tile_at(p.x, p.y);
                    match t.try_mut_neighbor_mines() {
                        Some(neighbor_mines) => {
                            *neighbor_mines = count;
                        },
                        None => {},
                    }
                    self.set_tile(p.x, p.y, t);
                    proof {
                        assert(self@.mines() =~= pre.mines());
                        assert(all.skip(k).skip(1) =~= all.skip(k + 1));
                        assert forall|q: Position| self@.in_bounds(q) implies (
                        #[trigger] self@.tile(q)).is_showing == pre.tile(q).is_showing by {}
                        assert forall|j: int| 0 <= j < k + 1 implies self@.count_ok_at(
                            #[trigger] all[j],
                        ) by {
                            lemma_row_major_contains(self.width, self.height, all[j]);
                            if j < k {
                                assert(pre.count_ok_at(all[j]));
                            }
                        }
                        k = k + 1;
                    }
                },
                None => {
                    break ;
                },
            }
        }
        proof {
            assert forall|p: Position| self@.in_bounds(p) implies #[trigger] self@.count_ok_at(
                p,
            ) by {
                lemma_row_major_contains(self.width, self.height, p);
                let j = choose|j: int| 0 <= j < all.len() && all[j] == p;
                assert(self@.count_ok_at(all[j]));
            }
        }
    }

    /// Opens the tile in column `x` of row `y`. A tile that no mine touches
    /// opens its neighbours with it, and they theirs in turn.
    pub fn reveal_tile(&mut self, y: usize, x: usize) -> (out: RevealOutcome)
        requires
            old(self)@.grid_ok(),
        ensures
            old(self)@.reveal_post(y, x, final(self)@, out),
            final(self)@.grid_ok(),
            old(self)@.wf() ==> final(self)@.wf(),
    {
        let ghost before = self@;
        let out = self.open_tile(y, x);
        proof {
            lemma_reveal_keeps(before, y, x, self@, out);
        }
        out
    }

    /// Opens the tile and says what came of it.
    fn open_tile(&mut self, y: usize, x: usize) -> (out: RevealOutcome)
        requires
            old(self)@.grid_ok(),
        ensures
            old(self)@.reveal_post(y, x, final(self)@, out),
            final(self)@.grid_ok(),
    {
        if y >= self.height || x >= self.width {
            return RevealOutcome::OutOfBounds;
        }
        let t = *self.tile_at(x, y);
        if t.is_showing {
            return RevealOutcome::AlreadyShown;
        }
        match t.kind {
            TileKind::Mine => {
                self.show(Position::from_xy(x, y));
                RevealOutcome::MineRevealed
            },
            TileKind::NotMine { neighbor_mines } => {
                if neighbor_mines > 0 {
                    self.show(Position::from_xy(x, y));
                    RevealOutcome::SafeRevealed { count: 1 }
                } else {
                    let count: usize = self.flood_from(Position::from_xy(x, y));
                    RevealOutcome::SafeRevealed { count }
                }
            },
        }
    }

    /// Opens the tile at `p`.
    fn show(&mut self, p: Position)
        requires
            old(self)@.grid_ok(),
            old(self)@.in_bounds(p),
        ensures
            final(self)@ == old(self)@.with_shown(p),
            final(self)@.grid_ok(),
    {
        let mut t = *self.tile_at(p.x, p.y);
        t.is_showing = true;
        self.set_tile(p.x, p.y, t);
    }

    /// Ticks the tile at `q` and opens it, and says whether it was hidden.
    fn open_marked(
        &mut self,
        seen: &mut Vec<Vec<bool>>,
        q: Position,
        Ghost(v): Ghost<FieldView>,
    ) -> (newly: bool)
        requires
            v.grid_ok(),
            v.in_bounds(q),
            old(seen)@.len() == v.height,
            forall|y: int| 0 <= y < v.height ==> (#[trigger] old(seen)@[y])@.len() == v.width,
            old(self)@ == v.showing_also(mark_set(old(seen)@)),
            old(self)@.grid_ok(),
            !mark_set(old(seen)@).contains(q),
        ensures
            final(seen)@.len() == v.height,
            forall|y: int| 0 <= y < v.height ==> (#[trigger] final(seen)@[y])@.len() == v.width,
            mark_set(final(seen)@) == mark_set(old(seen)@).insert(q),
            final(self)@ == v.showing_also(mark_set(final(seen)@)),
            final(self)@.grid_ok(),
            newly == !v.tile(q).is_showing,
            hidden_among(v, mark_set(final(seen)@)) == (if newly {
                hidden_among(v, mark_set(old(seen)@)).insert(q)
            } else {
                hidden_among(v, mark_set(old(seen)@))
            }),
    {
        let ghost marks_before = mark_set(seen@);
        let ghost field_before = self@;
        let t = *self.tile_at(q.x, q.y);
        proof {
            assert(t == v.tile_after(marks_before, q));
        }
        seen[q.y][q.x] = true;
        let ghost marks = mark_set(seen@);
        proof {
            assert forall|r: Position| marked(seen@, r) <==> (marked(old(seen)@, r) || r == q) by {}
            assert(marks =~= marks_before.insert(q));
        }
        let newly = !t.is_showing;
        if newly {
            self.show(q);
            proof {
                assert(hidden_among(v, marks) =~= hidden_among(v, marks_before).insert(q));
            }
        } else {
            proof {
                assert(hidden_among(v, marks) =~= hidden_among(v, marks_before));
            }
        }
        proof {
            let want = v.showing_also(marks);
            assert(self@.tiles =~~= want.tiles) by {
                assert forall|y: int| 0 <= y < v.height implies #[trigger] self@.tiles[y]
                    =~= want.tiles[y] by {
                    assert forall|x: int| 0 <= x < v.width implies #[trigger] self@.tiles[y][x]
                        == want.tiles[y][x] by {
                        let r = Position { x: x as usize, y: y as usize };
                        assert(field_before.tiles[y][x] == v.tile_after(marks_before, r));
                        assert(marks.contains(r) <==> (marks_before.contains(r) || r == q));
                    }
                }
            }
        }
        newly
    }

    /// Opens all that a flood from `start` opens, and counts the tiles that
    /// were hidden before.
    fn flood_from(&mut self, start: Position) -> (count: usize)
        requires
            old(self)@.grid_ok(),
            old(self)@.is_zero(start),
        ensures
            final(self)@ == old(self)@.flood(start),
            final(self)@.grid_ok(),
            old(self)@.opened(start).finite(),
            count == old(self)@.opened(start).len(),
    {
        let ghost v = self@;
        let ghost cells = grid_cells(v.width, v.height);
        let ghost total = v.width * v.height;
        let mut seen = blank_marks(self.height, self.width);
        let mut work: Vec<Position> = Vec::new();
        let mut count: usize = 0;
        let ghost marks = mark_set(seen@);
        work.push(start);
        proof {
            lemma_grid_cells(self.width, self.height);
            assert(v.width * v.height == v.height * v.width) by (nonlinear_arith);
            lemma_reach_start(v, start);
            assert(work@[0] == start);
            assert(hidden_among(v, marks) =~= Set::<Position>::empty());
            assert(self@.tiles =~~= v.showing_also(marks).tiles) by {
                assert forall|y: int| 0 <= y < v.height implies #[trigger] self@.tiles[y]
                    =~= v.showing_also(marks).tiles[y] by {
                    assert forall|x: int| 0 <= x < v.width implies #[trigger] self@.tiles[y][x]
                        == v.showing_also(marks).tiles[y][x] by {
                        let q = Position { x: x as usize, y: y as usize };
                        assert(v.tile(q) == v.tiles[y][x]);
                    }
                }
            }
        }
        while work.len() > 0
            invariant
                v == old(self)@,
                v.grid_ok(),
                v.is_zero(start),
                v.height == self.height,
                v.width == self.width,
                cells == grid_cells(v.width, v.height),
                cells.finite(),
                cells.len() == total,
                total <= usize::MAX,
                seen@.len() == v.height,
                forall|y: int| 0 <= y < v.height ==> (#[trigger] seen@[y])@.len() == v.width,
                marks == mark_set(seen@),
                self@ == v.showing_also(marks),
                self@.grid_ok(),
                marks.subset_of(cells),
                forall|q: Position| #[trigger] marks.contains(q) ==> v.flooded(start, q),
                forall|i: int| 0 <= i < work@.len() ==> v.candidate(start, #[trigger] work@[i]),
                forall|z: Position, q: Position|
                    #![trigger marks.contains(z), adjacent(z, q)]
                    marks.contains(z) && v.is_zero(z) && adjacent(z, q) && v.in_bounds(q)
                        && !v.is_mine(q) ==> marks.contains(q) || work@.contains(q),
                marks.contains(start) || work@.contains(start),
                count == hidden_among(v, marks).len(),
            decreases total - marks.len(), work@.len(),
        {
            let ghost work_before = work@;
            let ghost marks_before = marks;
            proof {
                vstd::set_lib::lemma_len_subset(marks_before, cells);
            }
            let q = work.pop().unwrap();
            proof {
                assert(work_before[work_before.len() - 1] == q);
                assert forall|r: Position| work_before.contains(r) implies r == q
                    || work@.contains(r) by {
                    let i = choose|i: int| 0 <= i < work_before.len() && work_before[i] == r;
                    if i < work@.len() {
                        assert(work@[i] == r);
                    }
                }
            }
            if q.y < self.height && q.x < self.width && !seen[q.y][q.x] {
                let t = *self.tile_at(q.x, q.y);
                proof {
                    assert(!marked(seen@, q));
                    assert(t == v.tile_after(marks_before, q));
                    assert(t.kind == v.tile(q).kind);
                }
                if !t.has_mine() {
                    let newly = self.open_marked(&mut seen, q, Ghost(v));
                    proof {
                        marks = mark_set(seen@);
                        vstd::set_lib::lemma_len_subset(marks, cells);
                        vstd::set_lib::lemma_len_subset(hidden_among(v, marks), marks);
                        vstd::set_lib::lemma_len_subset(hidden_among(v, marks_before), marks_before);
                    }
                    if newly {
                        count = count + 1;
                    }
                    let is_zero = match t.kind {
                        TileKind::Mine => false,
                        TileKind::NotMine { neighbor_mines } => neighbor_mines == 0,
                    };
                    if is_zero {
                        proof {
                            let z = choose|z: Position| #[trigger]
                                v.zero_reach(start, z) && (z == q || adjacent(z, q));
                            if z != q {
                                lemma_reach_step(v, start, z, q);
                            }
                        }
                        push_around(&mut work, q);
                        proof {
                            assert forall|i: int| 0 <= i < work@.len() implies v.candidate(
                                start,
                                #[trigger] work@[i],
                            ) by {
                                if i >= work_before.len() - 1 {
                                    assert(adjacent(q, work@[i]));
                                }
                            }
                        }
                    }
                }
            }
        }
        proof {
            assert(work@.len() == 0);
            assert(flood_closed(v, marks)) by {
                assert forall|z: Position, q: Position|
                    #![trigger marks.contains(z), adjacent(z, q)]
                    marks.contains(z) && v.is_zero(z) && adjacent(z, q) && v.in_bounds(q)
                        && !v.is_mine(q) implies marks.contains(q) by {
                    assert(marks.contains(q) || work@.contains(q));
                }
            }
            assert forall|q: Position| marks.contains(q) <==> v.flood_set(start).contains(q) by {
                if v.flooded(start, q) {
                    lemma_closed_holds_flood(v, start, marks, q);
                }
            }
            assert(marks =~= v.flood_set(start));
            assert(hidden_among(v, marks) =~= v.opened(start));
            vstd::set_lib::lemma_len_subset(marks, cells);
            vstd::set_lib::lemma_len_subset(hidden_among(v, marks), marks);
        }
        count
    }

    /// Draws the field: a bracketed character for each tile, a line for
    /// each row.
    pub fn render(&self) -> (s: String)
        requires
            self@.grid_ok(),
        ensures
            s@ == self@.text(None),
    {
        self.render_with(None)
    }

    /// Draws the field with braces around the tile that sits where
    /// `target_tile` does.
    pub fn highlight_render(&self, target_tile: &Tile) -> (s: String)
        requires
            self@.grid_ok(),
        ensures
            s@ == self@.text(Some(target_tile.position)),
    {
        self.render_with(Some(target_tile.position))
    }

    /// Draws the field, with braces round the tile at `target`, if any.
    fn render_with(&self, target: Option<Position>) -> (s: String)
        requires
            self@.grid_ok(),
        ensures
            s@ == self@.text(target),
    {
        let mut s = String::new();
        let mut y: usize = 0;
        proof {
            assert(self@.tiles.take(0) =~= Seq::<Seq<Tile>>::empty());
        }
        while y < self.height
            invariant
                self@.grid_ok(),
                y <= self@.height,
                s@ == rows_text(self@.tiles.take(y as int), target),
            decreases self@.height - y,
        {
            let ghost row = self@.tiles[y as int];
            let ghost above = s@;
            let mut x: usize = 0;
            proof {
                assert(row.take(0) =~= Seq::<Tile>::empty());
                assert(above + row_text(row.take(0), target) =~= above);
            }
            while x < self.width
                invariant
                    self@.grid_ok(),
                    y < self@.height,
                    x <= self@.width,
                    row == self@.tiles[y as int],
                    s@ == above + row_text(row.take(x as int), target),
                decreases self@.width - x,
            {
                let t = self.tile_at(x, y);
                let pointed = match target {
                    Some(p) => p.x == t.position.x && p.y == t.position.y,
                    None => false,
                };
                let glyph = t.glyph();
                s.push(if pointed { '{' } else { '[' });
                s.push(glyph);
                s.push(if pointed { '}' } else { ']' });
                proof {
                    let next = row.take(x + 1);
                    assert(next.drop_last() =~= row.take(x as int));
                    assert(next.last() == *t);
                    assert(s@ =~= above + row_text(next, target));
                }
                x = x + 1;
            }
            s.push('\n');
            proof {
                let next = self@.tiles.take(y + 1);
                assert(next.drop_last() =~= self@.tiles.take(y as int));
                assert(next.last() == row);
                assert(row.take(x as int) =~= row);
            }
            y = y + 1;
        }
        proof {
            assert(self@.tiles.take(y as int) =~= self@.tiles);
        }
        s
    }
}

} // verus!
