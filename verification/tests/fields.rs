use minefield::field::tile::Tile;
use minefield::field::tile::TileKind;
use minefield::field::Field;
use minefield::field::RevealOutcome;
use minefield::util::Position;

fn mines_of(field: &Field) -> Vec<Position> {
    Position::iter_2d(field.width(), field.height())
        .collect()
        .into_iter()
        .filter(|p| field.tile_at(p.x, p.y).has_mine())
        .collect()
}

fn showing_of(field: &Field) -> Vec<Position> {
    Position::iter_2d(field.width(), field.height())
        .collect()
        .into_iter()
        .filter(|p| field.tile_at(p.x, p.y).is_showing)
        .collect()
}

fn mines_touching(field: &Field, x: usize, y: usize) -> u8 {
    let mut count = 0;
    for ny in y.saturating_sub(1)..=y + 1 {
        for nx in x.saturating_sub(1)..=x + 1 {
            if (nx, ny) == (x, y) || nx >= field.width() || ny >= field.height() {
                continue;
            }
            if field.tile_at(nx, ny).has_mine() {
                count += 1;
            }
        }
    }
    count
}

fn assert_sound(field: &Field, height: usize, width: usize, num_mines: usize) {
    assert_eq!(field.height(), height);
    assert_eq!(field.width(), width);
    assert_eq!(field.num_mines(), num_mines);
    assert_eq!(mines_of(field).len(), num_mines);
    for y in 0..height {
        for x in 0..width {
            let tile = field.tile_at(x, y);
            assert_eq!(tile.position, Position::from_xy(x, y));
            assert_eq!(field.try_tile_at(x, y), Some(tile));
            let touching = mines_touching(field, x, y);
            assert_eq!(field.count_neighbor_mines(x, y), touching);
            match tile.kind {
                TileKind::Mine => {}
                TileKind::NotMine { neighbor_mines } => assert_eq!(neighbor_mines, touching),
            }
        }
    }
    assert_eq!(field.try_tile_at(width, 0), None);
    assert_eq!(field.try_tile_at(0, height), None);
}

/// A five by five field with one mine in the middle.
fn ring() -> Field {
    let mut field = Field::new(5, 5, 0);
    assert_eq!(field.place_nth_free(12), Position::from_xy(2, 2));
    field.update_tile_counts();
    field
}

#[test]
fn new_fields_are_sound() {
    let sizes = [(1, 1, 0), (1, 1, 1), (4, 7, 0), (4, 7, 5), (6, 3, 17), (3, 3, 9), (9, 9, 10)];
    for (height, width, num_mines) in sizes {
        for _ in 0..10 {
            let field = Field::new(height, width, num_mines);
            assert_sound(&field, height, width, num_mines);
            assert!(showing_of(&field).is_empty());
        }
    }
}

#[test]
fn fields_without_tiles() {
    let mut field = Field::new(0, 4, 0);
    assert_sound(&field, 0, 4, 0);
    assert_eq!(field.render(), "");
    assert_eq!(field.reveal_tile(0, 0), RevealOutcome::OutOfBounds);

    let mut field = Field::new(2, 0, 0);
    assert_sound(&field, 2, 0, 0);
    assert_eq!(field.render(), "\n\n");
    assert_eq!(field.reveal_tile(0, 0), RevealOutcome::OutOfBounds);
}

#[test]
fn reset_scatters_the_mines_anew() {
    let mut field = Field::new(6, 5, 7);
    assert_eq!(field.reveal_tile(2, 3) == RevealOutcome::OutOfBounds, false);
    let showing = showing_of(&field);
    assert!(!showing.is_empty());
    let mut layouts = vec![mines_of(&field)];
    for _ in 0..20 {
        field.reset();
        assert_sound(&field, 6, 5, 7);
        assert_eq!(showing_of(&field), showing);
        layouts.push(mines_of(&field));
    }
    assert!(layouts.iter().any(|layout| *layout != layouts[0]));
}

#[test]
fn every_tile_gets_a_mine_some_time() {
    let mut field = Field::new(2, 3, 1);
    let mut hit = [false; 6];
    for _ in 0..400 {
        field.reset();
        let mines = mines_of(&field);
        assert_eq!(mines.len(), 1);
        hit[mines[0].y * 3 + mines[0].x] = true;
    }
    assert_eq!(hit, [true; 6]);
}

#[test]
fn empty_field_floods_whole() {
    let mut field = Field::new(3, 3, 0);
    assert_eq!(field.render(), "[ ][ ][ ]\n[ ][ ][ ]\n[ ][ ][ ]\n");
    assert_eq!(field.reveal_tile(0, 0), RevealOutcome::SafeRevealed { count: 9 });
    assert_eq!(showing_of(&field).len(), 9);
    assert_eq!(field.render(), "[ ][ ][ ]\n[ ][ ][ ]\n[ ][ ][ ]\n");
    assert_sound(&field, 3, 3, 0);
}

#[test]
fn single_mine_is_revealed() {
    let mut field = Field::new(1, 1, 1);
    assert_eq!(field.render(), "[ ]\n");
    assert_eq!(field.reveal_tile(0, 0), RevealOutcome::MineRevealed);
    assert_eq!(field.render(), "[*]\n");
    assert_eq!(field.reveal_tile(0, 0), RevealOutcome::AlreadyShown);
    assert_eq!(field.render(), "[*]\n");
}

#[test]
fn field_full_of_mines() {
    let mut field = Field::new(2, 2, 4);
    assert_sound(&field, 2, 2, 4);
    assert_eq!(mines_of(&field).len(), 4);
    assert_eq!(field.reveal_tile(0, 0), RevealOutcome::MineRevealed);
    assert_eq!(showing_of(&field), vec![Position::from_xy(0, 0)]);
    assert_eq!(field.render(), "[*][ ]\n[ ][ ]\n");
}

#[test]
fn ring_around_one_mine() {
    let mut field = ring();
    assert_eq!(mines_of(&field), vec![Position::from_xy(2, 2)]);
    for y in 0..5usize {
        for x in 0..5usize {
            let expected = if (x, y) == (2, 2) {
                TileKind::Mine
            } else if (1..=3).contains(&x) && (1..=3).contains(&y) {
                TileKind::NotMine { neighbor_mines: 1 }
            } else {
                TileKind::NotMine { neighbor_mines: 0 }
            };
            assert_eq!(field.tile_at(x, y).kind, expected);
        }
    }
    assert_eq!(field.count_neighbor_mines(2, 2), 0);
    assert_eq!(field.count_neighbor_mines(1, 1), 1);
    assert_eq!(field.count_neighbor_mines(0, 4), 0);

    assert_eq!(field.reveal_tile(0, 0), RevealOutcome::SafeRevealed { count: 24 });
    assert_eq!(showing_of(&field).len(), 24);
    assert!(!field.tile_at(2, 2).is_showing);
    assert_eq!(
        field.render(),
        "[ ][ ][ ][ ][ ]\n[ ][1][1][1][ ]\n[ ][1][ ][1][ ]\n[ ][1][1][1][ ]\n[ ][ ][ ][ ][ ]\n"
    );
    assert_eq!(field.reveal_tile(2, 2), RevealOutcome::MineRevealed);
    assert_eq!(
        field.render(),
        "[ ][ ][ ][ ][ ]\n[ ][1][1][1][ ]\n[ ][1][*][1][ ]\n[ ][1][1][1][ ]\n[ ][ ][ ][ ][ ]\n"
    );
}

#[test]
fn a_counted_tile_opens_alone() {
    let mut field = ring();
    assert_eq!(field.reveal_tile(1, 3), RevealOutcome::SafeRevealed { count: 1 });
    assert_eq!(showing_of(&field), vec![Position::from_xy(3, 1)]);
    assert_eq!(
        field.render(),
        "[ ][ ][ ][ ][ ]\n[ ][ ][ ][1][ ]\n[ ][ ][ ][ ][ ]\n[ ][ ][ ][ ][ ]\n[ ][ ][ ][ ][ ]\n"
    );
    // the flood counts only what it opens itself
    assert_eq!(field.reveal_tile(4, 4), RevealOutcome::SafeRevealed { count: 23 });
    assert_eq!(showing_of(&field).len(), 24);
}

#[test]
fn a_mine_opens_alone() {
    let mut field = ring();
    assert_eq!(field.reveal_tile(2, 2), RevealOutcome::MineRevealed);
    assert_eq!(showing_of(&field), vec![Position::from_xy(2, 2)]);
}

#[test]
fn reveal_outside_the_field_changes_nothing() {
    let mut field = ring();
    let before = field.render();
    assert_eq!(field.reveal_tile(5, 0), RevealOutcome::OutOfBounds);
    assert_eq!(field.reveal_tile(0, 5), RevealOutcome::OutOfBounds);
    assert_eq!(field.reveal_tile(usize::MAX, usize::MAX), RevealOutcome::OutOfBounds);
    assert!(showing_of(&field).is_empty());
    assert_eq!(field.render(), before);
    // twice outside is outside twice
    assert_eq!(field.reveal_tile(5, 0), RevealOutcome::OutOfBounds);
}

#[test]
fn reveal_twice_is_reveal_once() {
    for (row, col) in [(0, 0), (1, 1), (2, 2)] {
        let mut field = ring();
        assert_ne!(field.reveal_tile(row, col), RevealOutcome::AlreadyShown);
        let showing = showing_of(&field);
        let drawn = field.render();
        assert_eq!(field.reveal_tile(row, col), RevealOutcome::AlreadyShown);
        assert_eq!(showing_of(&field), showing);
        assert_eq!(field.render(), drawn);
    }
}

#[test]
fn reveal_takes_the_row_first() {
    let mut field = Field::new(2, 4, 8);
    assert_eq!(field.reveal_tile(1, 3), RevealOutcome::MineRevealed);
    assert_eq!(showing_of(&field), vec![Position::from_xy(3, 1)]);
    assert_eq!(field.reveal_tile(3, 1), RevealOutcome::OutOfBounds);
}

#[test]
fn the_flood_stops_at_counted_tiles() {
    // a wall of mines in column 2 parts the field in two
    let mut field = Field::new(3, 5, 0);
    assert_eq!(field.place_nth_free(2), Position::from_xy(2, 0));
    assert_eq!(field.place_nth_free(6), Position::from_xy(2, 1));
    assert_eq!(field.place_nth_free(10), Position::from_xy(2, 2));
    field.update_tile_counts();
    assert_eq!(field.reveal_tile(0, 0), RevealOutcome::SafeRevealed { count: 6 });
    assert_eq!(field.render(), "[ ][2][ ][ ][ ]\n[ ][3][ ][ ][ ]\n[ ][2][ ][ ][ ]\n");
    assert_eq!(field.reveal_tile(1, 4), RevealOutcome::SafeRevealed { count: 6 });
    assert_eq!(field.render(), "[ ][2][ ][2][ ]\n[ ][3][ ][3][ ]\n[ ][2][ ][2][ ]\n");
    assert_eq!(mines_of(&field).len(), 3);
}

#[test]
fn the_flood_goes_round_corners() {
    // zeros touch only at a corner: (0, 0) and (1, 1) on a field whose
    // mines sit far off
    let mut field = Field::new(4, 4, 0);
    assert_eq!(field.place_nth_free(3), Position::from_xy(3, 0));
    assert_eq!(field.place_nth_free(11), Position::from_xy(0, 3));
    field.update_tile_counts();
    assert_eq!(
        field.reveal_tile(0, 0),
        RevealOutcome::SafeRevealed { count: 14 }
    );
    assert_eq!(
        field.render(),
        "[ ][ ][1][ ]\n[ ][ ][1][1]\n[1][1][ ][ ]\n[ ][1][ ][ ]\n"
    );
}

#[test]
fn nth_free_skips_the_mines() {
    let mut field = Field::new(2, 3, 0);
    assert_eq!(field.place_nth_free(0), Position::from_xy(0, 0));
    assert_eq!(field.place_nth_free(0), Position::from_xy(1, 0));
    assert_eq!(field.place_nth_free(3), Position::from_xy(2, 1));
    assert_eq!(field.place_nth_free(1), Position::from_xy(0, 1));
    assert_eq!(
        mines_of(&field),
        vec![
            Position::from_xy(0, 0),
            Position::from_xy(1, 0),
            Position::from_xy(0, 1),
            Position::from_xy(2, 1),
        ]
    );
    field.update_tile_counts();
    assert_eq!(field.tile_at(2, 0).kind, TileKind::NotMine { neighbor_mines: 2 });
    assert_eq!(field.tile_at(1, 1).kind, TileKind::NotMine { neighbor_mines: 4 });
}

#[test]
fn counts_reach_eight() {
    let mut field = Field::new(3, 3, 0);
    for _ in 0..4 {
        field.place_nth_free(0);
    }
    for _ in 0..4 {
        field.place_nth_free(1);
    }
    field.update_tile_counts();
    assert_eq!(mines_of(&field).len(), 8);
    assert_eq!(field.tile_at(1, 1).kind, TileKind::NotMine { neighbor_mines: 8 });
    assert_eq!(field.count_neighbor_mines(1, 1), 8);
    assert_eq!(field.reveal_tile(1, 1), RevealOutcome::SafeRevealed { count: 1 });
    assert_eq!(field.render(), "[ ][ ][ ]\n[ ][8][ ]\n[ ][ ][ ]\n");
}

#[test]
fn highlight_puts_braces_round_the_target() {
    let mut field = ring();
    field.reveal_tile(1, 1);
    let target = Tile::new_mine(Position::from_xy(1, 1));
    assert_eq!(
        field.highlight_render(&target),
        "[ ][ ][ ][ ][ ]\n[ ]{1}[ ][ ][ ]\n[ ][ ][ ][ ][ ]\n[ ][ ][ ][ ][ ]\n[ ][ ][ ][ ][ ]\n"
    );
    let corner = *field.tile_at(4, 4);
    assert_eq!(
        field.highlight_render(&corner),
        "[ ][ ][ ][ ][ ]\n[ ][1][ ][ ][ ]\n[ ][ ][ ][ ][ ]\n[ ][ ][ ][ ][ ]\n[ ][ ][ ][ ]{ }\n"
    );
    let outside = Tile::new_non_mine(Position::from_xy(5, 5), 0);
    assert_eq!(field.highlight_render(&outside), field.render());
}

#[test]
fn more_mines_than_tiles_are_refused() {
    assert!(Field::try_new(2, 2, 5).is_none());
    assert!(Field::try_new(0, 0, 1).is_none());
    assert!(Field::try_new(0, 7, 1).is_none());
    assert!(Field::try_new(usize::MAX, 2, 0).is_none());
    assert!(Field::try_new(usize::MAX, usize::MAX, usize::MAX).is_none());
    let field = Field::try_new(2, 2, 4).expect("four mines fit four tiles");
    assert_sound(&field, 2, 2, 4);
    let field = Field::try_new(0, 0, 0).expect("no mines fit no tiles");
    assert_sound(&field, 0, 0, 0);
    let field = Field::try_new(3, 4, 5).expect("five mines fit twelve tiles");
    assert_sound(&field, 3, 4, 5);
    assert!(showing_of(&field).is_empty());
}
