use crate::util::Position;
use vstd::prelude::*;

verus! {

/// What a tile holds: a mine, or the number of mines that touch it.
#[derive(Clone, Copy, PartialEq, Eq, Debug, Structural)]
pub enum TileKind {
    Mine,
    NotMine { neighbor_mines: u8 },
}

/// One cell of the field.
#[derive(Copy, Clone, Eq, PartialEq, Debug, Structural)]
pub struct Tile {
    pub is_showing: bool,
    pub kind: TileKind,
    pub position: Position,
}

/// The character that stands for a count between one and nine.
pub open spec fn digit_glyph(n: u8) -> char {
    if n == 1 {
        '1'
    } else if n == 2 {
        '2'
    } else if n == 3 {
        '3'
    } else if n == 4 {
        '4'
    } else if n == 5 {
        '5'
    } else if n == 6 {
        '6'
    } else if n == 7 {
        '7'
    } else if n == 8 {
        '8'
    } else {
        '9'
    }
}

impl Tile {
    /// A tile has at most eight neighbours, so a count never exceeds eight.
    pub open spec fn wf(&self) -> bool {
        match self.kind {
            TileKind::Mine => true,
            TileKind::NotMine { neighbor_mines } => neighbor_mines <= 8,
        }
    }

    /// Whether the tile holds a mine.
    pub open spec fn is_mine(&self) -> bool {
        self.kind == TileKind::Mine
    }

    /// Whether the tile is free of mines and no mine touches it.
    pub open spec fn is_zero(&self) -> bool {
        self.kind == (TileKind::NotMine { neighbor_mines: 0 })
    }

    /// The character drawn for the tile: blank while hidden and for a count
    /// of zero, a star for a mine, else the count's digit.
    pub open spec fn glyph_spec(&self) -> char {
        if !self.is_showing {
            ' '
        } else {
            match self.kind {
                TileKind::Mine => '*',
                TileKind::NotMine { neighbor_mines } => if neighbor_mines == 0 {
                    ' '
                } else {
                    digit_glyph(neighbor_mines)
                },
            }
        }
    }

    pub fn new_mine(position: Position) -> (t: Self)
        ensures
            t == (Tile { is_showing: false, kind: TileKind::Mine, position }),
    {
        Self { is_showing: false, kind: TileKind::Mine, position }
    }

    pub fn new_non_mine(position: Position, neighbor_mines: u8) -> (t: Self)
        ensures
            t == (Tile { is_showing: false, kind: TileKind::NotMine { neighbor_mines }, position }),
    {
        Self { is_showing: false, kind: TileKind::NotMine { neighbor_mines }, position }
    }

    pub fn has_mine(&self) -> (b: bool)
        ensures
            b == self.is_mine(),
    {
        match self.kind {
            TileKind::Mine => true,
            TileKind::NotMine { .. } => false,
        }
    }

    /// The same tile with another content.
    pub open spec fn with_kind(self, kind: TileKind) -> Tile {
        Tile { is_showing: self.is_showing, kind, position: self.position }
    }

    /// The same tile, hidden or showing.
    pub open spec fn with_showing(self, is_showing: bool) -> Tile {
        Tile { is_showing, kind: self.kind, position: self.position }
    }

    /// The content of a tile without a mine that `n` mines touch.
    pub open spec fn counted(n: u8) -> TileKind {
        TileKind::NotMine { neighbor_mines: n }
    }

    /// Turns the tile into a mine; a count it held is dropped.
    pub fn place_mine_at(&mut self)
        ensures
            *final(self) == old(self).with_kind(TileKind::Mine),
    {
        self.kind = TileKind::Mine;
    }

    /// Hands out the count for writing, unless the tile is a mine.
    pub fn try_mut_neighbor_mines(&mut self) -> (r: Option<&mut u8>)
        ensures
            old(self).is_mine() ==> r.is_none() && *final(self) == *old(self),
            !old(self).is_mine() ==> r.is_some() && old(self).kind == Self::counted(*r.unwrap())
                && *final(self) == old(self).with_kind(Self::counted(*final(r.unwrap()))),
    {
        match &mut self.kind {
            TileKind::Mine => None,
            TileKind::NotMine { neighbor_mines } => Some(neighbor_mines),
        }
    }

    /// The character drawn for the tile.
    pub fn glyph(&self) -> (c: char)
        requires
            self.wf(),
        ensures
            c == self.glyph_spec(),
    {
        if !self.is_showing {
            return ' ';
        }
        match self.kind {
            TileKind::Mine => '*',
            TileKind::NotMine { neighbor_mines } => {
                if neighbor_mines == 0 {
                    ' '
                } else if neighbor_mines == 1 {
                    '1'
                } else if neighbor_mines == 2 {
                    '2'
                } else if neighbor_mines == 3 {
                    '3'
                } else if neighbor_mines == 4 {
                    '4'
                } else if neighbor_mines == 5 {
                    '5'
                } else if neighbor_mines == 6 {
                    '6'
                } else if neighbor_mines == 7 {
                    '7'
                } else {
                    '8'
                }
            },
        }
    }
}

} // verus!
