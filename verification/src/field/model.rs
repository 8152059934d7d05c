use crate::field::tile::Tile;
use crate::field::tile::TileKind;
use crate::field::RevealOutcome;
use crate::util::adjacent;
use crate::util::around;
use crate::util::Position;
use vstd::prelude::*;

verus! {

/// The test "is one of `mines`", as `Seq::filter` takes it.
pub open spec fn member_of(mines: Set<Position>) -> spec_fn(Position) -> bool {
    |p: Position| mines.contains(p)
}

/// How many of the cells that touch `p` are in `mines`.
pub open spec fn mines_around(mines: Set<Position>, p: Position) -> nat {
    around(p, 1).filter(member_of(mines)).len()
}

/// What a field is, as plain mathematics: its parameters and its tiles, row
/// by row.
pub struct FieldView {
    pub height: int,
    pub width: int,
    pub num_mines: int,
    pub tiles: Seq<Seq<Tile>>,
}

impl FieldView {
    /// Whether the field has a tile at `p`.
    pub open spec fn in_bounds(self, p: Position) -> bool {
        p.x < self.width && p.y < self.height
    }

    /// The tile at `p`.
    pub open spec fn tile(self, p: Position) -> Tile {
        self.tiles[p.y as int][p.x as int]
    }

    /// The matrix has `height` rows of `width` tiles, and every tile knows
    /// where it is.
    pub open spec fn grid_ok(self) -> bool {
        &&& 0 <= self.height <= usize::MAX
        &&& 0 <= self.width <= usize::MAX
        &&& self.height * self.width <= usize::MAX
        &&& self.tiles.len() == self.height
        &&& forall|y: int| 0 <= y < self.height ==> (#[trigger] self.tiles[y]).len() == self.width
        &&& forall|p: Position|
            self.in_bounds(p) ==> (#[trigger] self.tile(p)).position == p && self.tile(p).wf()
    }

    /// Whether the field has a tile at `p` and that tile holds a mine.
    pub open spec fn is_mine(self, p: Position) -> bool {
        self.in_bounds(p) && self.tile(p).is_mine()
    }

    /// The cells that hold a mine.
    pub open spec fn mines(self) -> Set<Position> {
        Set::new(|p: Position| self.is_mine(p))
    }

    /// How many mines touch `p`.
    pub open spec fn neighbor_mines(self, p: Position) -> nat {
        mines_around(self.mines(), p)
    }

    /// Every tile without a mine holds the number of mines that touch it.
    pub open spec fn counts_ok(self) -> bool {
        forall|p: Position| self.in_bounds(p) ==> #[trigger] self.count_ok_at(p)
    }

    /// The tile at `p` holds a mine or the number of mines that touch it.
    pub open spec fn count_ok_at(self, p: Position) -> bool {
        match self.tile(p).kind {
            TileKind::Mine => true,
            TileKind::NotMine { neighbor_mines } => neighbor_mines == self.neighbor_mines(p),
        }
    }

    /// What holds of a field between any two operations on it.
    pub open spec fn wf(self) -> bool {
        &&& self.grid_ok()
        &&& self.counts_ok()
        &&& self.mines().finite()
        &&& self.mines().len() == self.num_mines
    }

    /// The cells that hold no mine.
    pub open spec fn free(self) -> Set<Position> {
        Set::new(|p: Position| self.in_bounds(p) && !self.tile(p).is_mine())
    }

    /// The cells without a mine that come before `p` in row-major order.
    pub open spec fn free_before(self, p: Position) -> Set<Position> {
        Set::new(|q: Position| self.in_bounds(q) && !self.tile(q).is_mine() && precedes(q, p))
    }

    /// The field with a mine in the tile at `p`.
    pub open spec fn with_mine(self, p: Position) -> FieldView {
        self.with_tile(p, self.tile(p).with_kind(TileKind::Mine))
    }

    /// Whether `p` is a tile of the field without a mine that no mine touches.
    pub open spec fn is_zero(self, p: Position) -> bool {
        self.in_bounds(p) && self.tile(p).is_zero()
    }

    /// A chain of such tiles, each touching the next.
    pub open spec fn zero_path(self, path: Seq<Position>) -> bool {
        &&& path.len() > 0
        &&& forall|i: int| 0 <= i < path.len() ==> self.is_zero(#[trigger] path[i])
        &&& forall|i: int| 0 <= i < path.len() - 1 ==> adjacent(#[trigger] path[i], path[i + 1])
    }

    /// Whether such a chain leads from `start` to `p`.
    pub open spec fn zero_reach(self, start: Position, p: Position) -> bool {
        exists|path: Seq<Position>| #[trigger]
            self.zero_path(path) && path[0] == start && path.last() == p
    }

    /// Whether `q` is at the end of such a chain from `start` or touches
    /// its end.
    pub open spec fn candidate(self, start: Position, q: Position) -> bool {
        exists|z: Position| #[trigger] self.zero_reach(start, z) && (z == q || adjacent(z, q))
    }

    /// Whether a flood that starts at `start` opens the tile at `q`: the
    /// tiles without a mine in reach of the chains and on their border.
    pub open spec fn flooded(self, start: Position, q: Position) -> bool {
        self.in_bounds(q) && !self.tile(q).is_mine() && self.candidate(start, q)
    }

    /// The hidden tiles that a flood from `start` opens.
    pub open spec fn opened(self, start: Position) -> Set<Position> {
        Set::new(|q: Position| self.flooded(start, q) && !self.tile(q).is_showing)
    }

    /// The tile at `q` after the tiles in `shown` were opened.
    pub open spec fn tile_after(self, shown: Set<Position>, q: Position) -> Tile {
        if shown.contains(q) {
            self.tile(q).with_showing(true)
        } else {
            self.tile(q)
        }
    }

    /// The field after the tiles in `shown` were opened.
    pub open spec fn showing_also(self, shown: Set<Position>) -> FieldView {
        FieldView {
            height: self.height,
            width: self.width,
            num_mines: self.num_mines,
            tiles: Seq::new(
                self.height as nat,
                |y: int|
                    Seq::new(
                        self.width as nat,
                        |x: int| self.tile_after(shown, Position { x: x as usize, y: y as usize }),
                    ),
            ),
        }
    }

    /// The tiles that a flood from `start` opens.
    pub open spec fn flood_set(self, start: Position) -> Set<Position> {
        Set::new(|q: Position| self.flooded(start, q))
    }

    /// The field after a flood from `start`.
    pub open spec fn flood(self, start: Position) -> FieldView {
        self.showing_also(self.flood_set(start))
    }

    /// The field with the tile at `p` opened.
    pub open spec fn with_shown(self, p: Position) -> FieldView {
        self.with_tile(p, self.tile(p).with_showing(true))
    }

    /// What opening the tile in column `col` of row `row` makes of the field
    /// `self`, and what it reports.
    pub open spec fn reveal_post(self, row: usize, col: usize, post: FieldView, out: RevealOutcome) -> bool {
        let p = Position { x: col, y: row };
        if !self.in_bounds(p) {
            out == RevealOutcome::OutOfBounds && post == self
        } else if self.tile(p).is_showing {
            out == RevealOutcome::AlreadyShown && post == self
        } else if self.tile(p).is_mine() {
            out == RevealOutcome::MineRevealed && post == self.with_shown(p)
        } else if !self.tile(p).is_zero() {
            out == (RevealOutcome::SafeRevealed { count: 1 }) && post == self.with_shown(p)
        } else {
            &&& post == self.flood(p)
            &&& self.opened(p).finite()
            &&& out == (RevealOutcome::SafeRevealed { count: self.opened(p).len() as usize })
            &&& self.opened(p).len() <= usize::MAX
        }
    }

    /// The field as it is drawn, with the tile at `target` pointed out.
    pub open spec fn text(self, target: Option<Position>) -> Seq<char> {
        rows_text(self.tiles, target)
    }

    /// The field with the tile at `p` replaced.
    pub open spec fn with_tile(self, p: Position, t: Tile) -> FieldView {
        FieldView {
            tiles: self.tiles.update(p.y as int, self.tiles[p.y as int].update(p.x as int, t)),
            ..self
        }
    }
}

/// One tile as it is drawn: its character between square brackets, or
/// between braces where it is the tile to be pointed out.
pub open spec fn cell_text(t: Tile, target: Option<Position>) -> Seq<char> {
    if target == Some(t.position) {
        seq!['{', t.glyph_spec(), '}']
    } else {
        seq!['[', t.glyph_spec(), ']']
    }
}

/// The tiles of a row as they are drawn, one after the other.
pub open spec fn row_text(row: Seq<Tile>, target: Option<Position>) -> Seq<char>
    decreases row.len(),
{
    if row.len() == 0 {
        Seq::empty()
    } else {
        row_text(row.drop_last(), target) + cell_text(row.last(), target)
    }
}

/// Rows as they are drawn, each ended by a newline.
pub open spec fn rows_text(rows: Seq<Seq<Tile>>, target: Option<Position>) -> Seq<char>
    decreases rows.len(),
{
    if rows.len() == 0 {
        Seq::empty()
    } else {
        rows_text(rows.drop_last(), target) + row_text(rows.last(), target) + seq!['\n']
    }
}

/// Whether `q` comes before `p` in row-major order.
pub open spec fn precedes(q: Position, p: Position) -> bool {
    q.y < p.y || (q.y == p.y && q.x < p.x)
}

} // verus!
