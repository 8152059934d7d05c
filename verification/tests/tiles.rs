use minefield::field::tile::Tile;
use minefield::field::tile::TileKind;
use minefield::util::Position;

#[test]
fn new_tiles_are_hidden() {
    let p = Position::from_xy(3, 1);
    let mine = Tile::new_mine(p);
    assert!(!mine.is_showing);
    assert_eq!(mine.kind, TileKind::Mine);
    assert_eq!(mine.position, p);
    assert!(mine.has_mine());

    let safe = Tile::new_non_mine(p, 5);
    assert!(!safe.is_showing);
    assert_eq!(safe.kind, TileKind::NotMine { neighbor_mines: 5 });
    assert_eq!(safe.position, p);
    assert!(!safe.has_mine());
}

#[test]
fn placing_a_mine_drops_the_count() {
    let mut tile = Tile::new_non_mine(Position::from_xy(0, 0), 3);
    tile.is_showing = true;
    tile.place_mine_at();
    assert_eq!(tile.kind, TileKind::Mine);
    assert!(tile.is_showing);
    assert_eq!(tile.position, Position::zero());
    assert!(tile.has_mine());
}

#[test]
fn the_count_can_be_written_unless_mined() {
    let mut safe = Tile::new_non_mine(Position::from_xy(2, 2), 1);
    match safe.try_mut_neighbor_mines() {
        Some(count) => {
            assert_eq!(*count, 1);
            *count = 7;
        }
        None => panic!("a tile without a mine has a count"),
    }
    assert_eq!(safe.kind, TileKind::NotMine { neighbor_mines: 7 });

    let mut mine = Tile::new_mine(Position::from_xy(2, 2));
    assert!(mine.try_mut_neighbor_mines().is_none());
    assert_eq!(mine, Tile::new_mine(Position::from_xy(2, 2)));
}

#[test]
fn glyphs() {
    let p = Position::zero();
    assert_eq!(Tile::new_mine(p).glyph(), ' ');
    assert_eq!(Tile::new_non_mine(p, 0).glyph(), ' ');
    assert_eq!(Tile::new_non_mine(p, 4).glyph(), ' ');

    let mut mine = Tile::new_mine(p);
    mine.is_showing = true;
    assert_eq!(mine.glyph(), '*');

    let expected = [' ', '1', '2', '3', '4', '5', '6', '7', '8'];
    for n in 0..=8u8 {
        let mut tile = Tile::new_non_mine(p, n);
        tile.is_showing = true;
        assert_eq!(tile.glyph(), expected[n as usize]);
    }
}
